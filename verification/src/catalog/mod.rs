//! Which collections and indexes there are, and where.

pub mod chain;
pub mod entry;

pub use entry::{CollectionMeta, IndexMeta, IndexOptions};

use crate::decode::corrupt;
use crate::error::{Error, ErrorKind, IoError, IoResult};
use crate::index::btree::{lemma_tree_at, tree_entries, tree_pages};
use crate::index::tree::{ids, is_tree, leaf_cells, Entry as IndexEntry, Tree};
use crate::storage::page::{live, page_bytes, page_reads_back, PageModel};
use crate::storage::{PageId, PageStore, PageType, SlottedPage};
use crate::text::{decimal_text, join, quoted, str_equal};
use chain::{
    append_cell, catalog_cells, catalog_written, chain, find_cell, has_chain, is_catalog_page,
    is_chain, lemma_catalog_frame, lemma_chain_unique, lemma_gained, lemma_lost, lemma_replaced,
    lemma_walked, lemma_wanted_collection, link, link_from, linked, listed,
    loop_text, loops, page_again, page_at, read_chain, remove_cell, replace_cell, walked, Wanted, CATALOG_PAGE_ID,
};
use entry::{
    clone_strings, collection_cell, decode_entry, encode_collection, encode_index, entry_cell, entry_fits,
    entry_reads_back, index_cell, lemma_short_texts_len, parse_entry, short, strings_equal, texts,
    Entry, EntryModel, IndexModel,
};
use vstd::prelude::*;
use vstd::string::StringExecFns;
use vstd::utf8::encode_utf8;

verus! {

/// Longest collection name, in UTF-8 bytes. A catalog cell has to fit in
/// one page.
pub const MAX_COLLECTION_NAME_LEN: usize = 255;

/// Longest indexed field name, in UTF-8 bytes, for the same reason: an
/// index cell holds the collection name and the field name.
pub const MAX_FIELD_NAME_LEN: usize = 255;

/// A collection: its name, where it is, and its secondary indexes in
/// creation order.
pub struct CatalogEntry {
    pub name: String,
    pub meta: CollectionMeta,
    pub indexes: Vec<IndexMeta>,
}

/// What the catalog says of a collection.
#[verifier::ext_equal]
pub ghost struct CollectionModel {
    pub name: Seq<char>,
    pub meta: CollectionMeta,
    pub indexes: Seq<IndexModel>,
}

/// What some indexes are.
pub open spec fn index_models(indexes: Seq<IndexMeta>) -> Seq<IndexModel> {
    Seq::new(indexes.len(), |i: int| indexes[i]@)
}

impl View for CatalogEntry {
    type V = CollectionModel;

    open spec fn view(&self) -> CollectionModel {
        CollectionModel {
            name: self.name@,
            meta: self.meta,
            indexes: index_models(self.indexes@),
        }
    }
}

/// The collections and indexes of a database, as the catalog pages have
/// them.
pub struct Catalog {
    collections: Vec<CatalogEntry>,
}

impl View for Catalog {
    type V = Seq<CollectionModel>;

    closed spec fn view(&self) -> Seq<CollectionModel> {
        Seq::new(self.collections@.len(), |i: int| self.collections@[i]@)
    }
}

/// Where a collection is listed; the length of the list if it isn't.
pub open spec fn position(list: Seq<CollectionModel>, name: Seq<char>) -> nat
    decreases list.len(),
{
    if list.len() == 0 {
        0
    } else if list[0].name == name {
        0
    } else {
        1 + position(list.skip(1), name)
    }
}

/// Whether a collection exists.
pub open spec fn exists_in(list: Seq<CollectionModel>, name: Seq<char>) -> bool {
    position(list, name) < list.len()
}

/// Where a collection's parts are.
pub open spec fn meta_of(list: Seq<CollectionModel>, name: Seq<char>) -> Option<CollectionMeta> {
    if exists_in(list, name) {
        Some(list[position(list, name) as int].meta)
    } else {
        None
    }
}

/// A collection's secondary indexes, none if it doesn't exist.
pub open spec fn indexes_of(list: Seq<CollectionModel>, name: Seq<char>) -> Seq<IndexModel> {
    if exists_in(list, name) {
        list[position(list, name) as int].indexes
    } else {
        seq![]
    }
}

/// Whether no name is listed twice.
pub open spec fn names_distinct(list: Seq<CollectionModel>) -> bool {
    forall|i: int, j: int| 0 <= i < j < list.len() ==> list[i].name != list[j].name
}

pub proof fn lemma_position(list: Seq<CollectionModel>, name: Seq<char>)
    ensures
        position(list, name) <= list.len(),
        exists_in(list, name) ==> list[position(list, name) as int].name == name,
        forall|i: int| 0 <= i < position(list, name) ==> (#[trigger] list[i]).name != name,
    decreases list.len(),
{
    if list.len() > 0 && list[0].name != name {
        let rest = list.skip(1);
        lemma_position(rest, name);
        assert forall|i: int| 0 <= i < position(list, name) implies (#[trigger] list[i]).name
            != name by {
            if i > 0 {
                assert(rest[i - 1] == list[i]);
            }
        }
        if exists_in(list, name) {
            assert(rest[position(rest, name) as int] == list[position(list, name) as int]);
        }
    }
}

/// The one place a name is listed.
pub proof fn lemma_position_is(list: Seq<CollectionModel>, name: Seq<char>, i: int)
    requires
        0 <= i < list.len(),
        list[i].name == name,
        forall|k: int| 0 <= k < i ==> (#[trigger] list[k]).name != name,
    ensures
        position(list, name) == i,
        exists_in(list, name),
{
    lemma_position(list, name);
    let at = position(list, name) as int;
    if at < i {
        assert(list[at].name != name);
    }
}

/// The cells of some indexes.
pub open spec fn index_cells(name: Seq<char>, indexes: Seq<IndexModel>) -> Seq<Seq<u8>> {
    Seq::new(indexes.len(), |i: int| index_cell(name, indexes[i]))
}

/// The cells of a collection: its own, then its indexes'.
pub open spec fn own_cells(c: CollectionModel) -> Seq<Seq<u8>> {
    seq![collection_cell(c.name, c.meta)] + index_cells(c.name, c.indexes)
}

/// The cells of a catalog.
pub open spec fn cells_of(list: Seq<CollectionModel>) -> Seq<Seq<u8>>
    decreases list.len(),
{
    if list.len() == 0 {
        seq![]
    } else {
        cells_of(list.drop_last()) + own_cells(list.last())
    }
}

/// Whether a collection's entries have cells they can be read back from.
pub open spec fn fits_catalog(c: CollectionModel) -> bool {
    &&& short(c.name)
    &&& forall|i: int|
        0 <= i < c.indexes.len() ==> entry_fits(
            EntryModel::Index { collection: c.name, index: #[trigger] c.indexes[i] },
        )
}

/// Whether a list could be a catalog: no name twice, and every entry fits.
pub open spec fn catalog_ok(list: Seq<CollectionModel>) -> bool {
    &&& names_distinct(list)
    &&& forall|i: int| 0 <= i < list.len() ==> fits_catalog(#[trigger] list[i])
}

/// Whether the catalog pages hold exactly what the catalog says.
pub open spec fn agrees(list: Seq<CollectionModel>, pages: Map<PageId, Seq<u8>>) -> bool {
    &&& has_chain(pages)
    &&& catalog_ok(list)
    &&& catalog_cells(pages).to_multiset() =~= cells_of(list).to_multiset()
}

/// A catalog stands where its pages do.
pub proof fn lemma_agrees_frame(
    list: Seq<CollectionModel>,
    before: Map<PageId, Seq<u8>>,
    after: Map<PageId, Seq<u8>>,
)
    requires
        agrees(list, before),
        forall|p: PageId| #[trigger]
            chain(before).contains(p) ==> after.dom().contains(p) && after[p] == before[p],
    ensures
        agrees(list, after),
        chain(after) == chain(before),
{
    lemma_catalog_frame(before, after);
}

// ---------------------------------------------------------------------
// What a change to one collection does to the cells.

/// A list without the collection at `i`, in cells.
proof fn lemma_cells_at(list: Seq<CollectionModel>, i: int) -> (rest: vstd::multiset::Multiset<
    Seq<u8>,
>)
    requires
        0 <= i < list.len(),
    ensures
        cells_of(list).to_multiset() =~= rest.add(own_cells(list[i]).to_multiset()),
        rest =~= cells_of(list.take(i) + list.skip(i + 1)).to_multiset(),
    decreases list.len(),
{
    let front = list.drop_last();
    let own = own_cells(list.last());
    vstd::seq_lib::lemma_multiset_commutative(cells_of(front), own);
    let others = list.take(i) + list.skip(i + 1);
    if i == list.len() - 1 {
        assert(others =~= front);
        cells_of(front).to_multiset()
    } else {
        let rest = lemma_cells_at(front, i);
        assert(front[i] == list[i]);
        assert(front.take(i) + front.skip(i + 1) =~= others.drop_last());
        assert(others.last() == list.last());
        vstd::seq_lib::lemma_multiset_commutative(cells_of(others.drop_last()), own);
        let whole = rest.add(own.to_multiset());
        let here = own_cells(list[i]).to_multiset();
        assert(cells_of(list).to_multiset() =~= whole.add(here));
        whole
    }
}

/// The collection at `i` changed: its cells did, and no other.
proof fn lemma_cells_update(list: Seq<CollectionModel>, i: int, c: CollectionModel)
    requires
        0 <= i < list.len(),
    ensures
        cells_of(list.update(i, c)).to_multiset().add(own_cells(list[i]).to_multiset())
            =~= cells_of(list).to_multiset().add(own_cells(c).to_multiset()),
{
    let changed = list.update(i, c);
    let a = lemma_cells_at(list, i);
    let b = lemma_cells_at(changed, i);
    assert(changed.take(i) + changed.skip(i + 1) =~= list.take(i) + list.skip(i + 1));
    assert(a =~= b);
}

/// Every cell of a collection is a cell of the catalog.
proof fn lemma_own_contained(list: Seq<CollectionModel>, i: int, k: int)
    requires
        0 <= i < list.len(),
        0 <= k < own_cells(list[i]).len(),
    ensures
        cells_of(list).contains(own_cells(list[i])[k]),
    decreases list.len(),
{
    let front = list.drop_last();
    let head = cells_of(front);
    let whole = cells_of(list);
    let cell = own_cells(list[i])[k];
    if i < front.len() {
        assert(front[i] == list[i]);
        lemma_own_contained(front, i, k);
        let at = choose|at: int| 0 <= at < head.len() && head[at] == cell;
        assert(whole[at] == cell);
    } else {
        assert(whole[head.len() + k] == cell);
    }
}

/// Every cell of the catalog is a collection's or an index's.
proof fn lemma_cells_are(list: Seq<CollectionModel>, cell: Seq<u8>) -> (at: (int, Option<int>))
    requires
        cells_of(list).contains(cell),
    ensures
        0 <= at.0 < list.len(),
        match at.1 {
            None => cell == collection_cell(list[at.0].name, list[at.0].meta),
            Some(k) => 0 <= k < list[at.0].indexes.len() && cell == index_cell(
                list[at.0].name,
                list[at.0].indexes[k],
            ),
        },
    decreases list.len(),
{
    let front = list.drop_last();
    let own = own_cells(list.last());
    let head = cells_of(front);
    let whole = cells_of(list);
    let i = choose|i: int| 0 <= i < whole.len() && whole[i] == cell;
    if i < head.len() {
        assert(head[i] == cell);
        let at = lemma_cells_are(front, cell);
        assert(front[at.0] == list[at.0]);
        at
    } else if i == head.len() {
        assert(own[0] == cell);
        (list.len() - 1, None)
    } else {
        let k = i - head.len() - 1;
        assert(own[k + 1] == cell);
        (list.len() - 1, Some(k))
    }
}

/// A collection's cell is no index's.
proof fn lemma_kinds_differ(name: Seq<char>, meta: CollectionMeta, other: Seq<char>, index: IndexModel)
    ensures
        collection_cell(name, meta)[0] == entry::KIND_COLLECTION,
        index_cell(other, index)[0] != entry::KIND_COLLECTION,
{
    crate::bytes::lemma_le_len(meta.index_root as nat, 8);
    crate::bytes::lemma_le_len(index.root as nat, 8);
}

// ---------------------------------------------------------------------
// What loading makes of the cells.

/// The list with a collection added, or its whereabouts replaced.
pub open spec fn with_meta(
    list: Seq<CollectionModel>,
    name: Seq<char>,
    meta: CollectionMeta,
) -> Seq<CollectionModel> {
    if exists_in(list, name) {
        let i = position(list, name) as int;
        list.update(i, CollectionModel { meta, ..list[i] })
    } else {
        list.push(CollectionModel { name, meta, indexes: seq![] })
    }
}

/// The list with an index added to its collection.
pub open spec fn with_index(
    list: Seq<CollectionModel>,
    name: Seq<char>,
    index: IndexModel,
) -> Seq<CollectionModel> {
    let i = position(list, name) as int;
    list.update(i, CollectionModel { indexes: list[i].indexes.push(index), ..list[i] })
}

/// The collections among the cells; `None` if a cell is damaged.
pub open spec fn collections_in(cells: Seq<Seq<u8>>) -> Option<Seq<CollectionModel>>
    decreases cells.len(),
{
    if cells.len() == 0 {
        Some(seq![])
    } else {
        match (collections_in(cells.drop_last()), parse_entry(cells.last())) {
            (Some(list), Some(EntryModel::Collection { name, meta })) => Some(
                with_meta(list, name, meta),
            ),
            (Some(list), Some(EntryModel::Index { .. })) => Some(list),
            _ => None,
        }
    }
}

/// The collections given the indexes among the cells; `None` if an index
/// belongs to no collection.
pub open spec fn with_indexes(list: Seq<CollectionModel>, cells: Seq<Seq<u8>>) -> Option<
    Seq<CollectionModel>,
>
    decreases cells.len(),
{
    if cells.len() == 0 {
        Some(list)
    } else {
        match with_indexes(list, cells.drop_last()) {
            Some(list) => match parse_entry(cells.last()) {
                Some(EntryModel::Index { collection, index }) => if exists_in(list, collection) {
                    Some(with_index(list, collection, index))
                } else {
                    None
                },
                _ => Some(list),
            },
            None => None,
        }
    }
}

/// The catalog that cells make; `None` if they make none.
pub open spec fn loaded(cells: Seq<Seq<u8>>) -> Option<Seq<CollectionModel>> {
    match collections_in(cells) {
        Some(list) => with_indexes(list, cells),
        None => None,
    }
}

/// Cells that make a catalog are all whole.
proof fn lemma_collections_in_whole(cells: Seq<Seq<u8>>, k: int)
    requires
        collections_in(cells) is Some,
        0 <= k < cells.len(),
    ensures
        parse_entry(cells[k]) is Some,
    decreases cells.len(),
{
    if k < cells.len() - 1 {
        lemma_collections_in_whole(cells.drop_last(), k);
        assert(cells.drop_last()[k] == cells[k]);
    } else {
        assert(cells.last() == cells[k]);
    }
}

proof fn lemma_with_indexes_prefix(list: Seq<CollectionModel>, cells: Seq<Seq<u8>>, k: int)
    requires
        with_indexes(list, cells) is Some,
        0 <= k <= cells.len(),
    ensures
        with_indexes(list, cells.take(k)) is Some,
    decreases cells.len(),
{
    if k < cells.len() {
        lemma_with_indexes_prefix(list, cells.drop_last(), k);
        assert(cells.drop_last().take(k) =~= cells.take(k));
    } else {
        assert(cells.take(k) =~= cells);
    }
}

/// A change to one collection's whereabouts or indexes moves no name.
proof fn lemma_position_update(list: Seq<CollectionModel>, i: int, c: CollectionModel, name: Seq<char>)
    requires
        0 <= i < list.len(),
        c.name == list[i].name,
    ensures
        position(list.update(i, c), name) == position(list, name),
    decreases list.len(),
{
    let changed = list.update(i, c);
    if list[0].name != name {
        if i == 0 {
            assert(changed.skip(1) =~= list.skip(1));
        } else {
            assert(changed.skip(1) =~= list.skip(1).update(i - 1, c));
            lemma_position_update(list.skip(1), i - 1, c, name);
        }
    }
}

/// What a collection listed last is found as.
proof fn lemma_position_push(list: Seq<CollectionModel>, c: CollectionModel, name: Seq<char>)
    ensures
        position(list.push(c), name) == (if exists_in(list, name) {
            position(list, name)
        } else if c.name == name {
            list.len()
        } else {
            list.len() + 1
        }),
    decreases list.len(),
{
    let longer = list.push(c);
    if list.len() == 0 {
        assert(longer[0] == c);
        assert(longer.skip(1).len() == 0);
        assert(position(longer.skip(1), name) == 0);
    } else {
        assert(longer[0] == list[0]);
        assert(longer.skip(1) =~= list.skip(1).push(c));
        lemma_position_push(list.skip(1), c, name);
        lemma_position(list, name);
        lemma_position(list.skip(1), name);
    }
}

/// What a catalog says of a collection once its entry is replaced.
pub proof fn lemma_list_update(list: Seq<CollectionModel>, i: int, c: CollectionModel)
    requires
        0 <= i < list.len(),
        c.name == list[i].name,
        names_distinct(list),
    ensures
        names_distinct(list.update(i, c)),
        meta_of(list.update(i, c), c.name) == Some(c.meta),
        indexes_of(list.update(i, c), c.name) == c.indexes,
        forall|name: Seq<char>|
            name != c.name ==> #[trigger] meta_of(list.update(i, c), name) == meta_of(list, name),
        forall|name: Seq<char>|
            name != c.name ==> #[trigger] indexes_of(list.update(i, c), name) == indexes_of(
                list,
                name,
            ),
{
    let changed = list.update(i, c);
    lemma_position_is(list, c.name, i);
    lemma_position_update(list, i, c, c.name);
    assert forall|name: Seq<char>| name != c.name implies #[trigger] meta_of(changed, name)
        == meta_of(list, name) by {
        lemma_position_update(list, i, c, name);
        lemma_position(list, name);
    }
    assert forall|name: Seq<char>| name != c.name implies #[trigger] indexes_of(changed, name)
        == indexes_of(list, name) by {
        lemma_position_update(list, i, c, name);
        lemma_position(list, name);
    }
}

/// What a catalog says once a collection is added.
pub proof fn lemma_list_push(list: Seq<CollectionModel>, c: CollectionModel)
    requires
        !exists_in(list, c.name),
        names_distinct(list),
    ensures
        names_distinct(list.push(c)),
        meta_of(list.push(c), c.name) == Some(c.meta),
        indexes_of(list.push(c), c.name) == c.indexes,
        forall|name: Seq<char>|
            name != c.name ==> #[trigger] meta_of(list.push(c), name) == meta_of(list, name),
        forall|name: Seq<char>|
            name != c.name ==> #[trigger] indexes_of(list.push(c), name) == indexes_of(list, name),
{
    let longer = list.push(c);
    lemma_position(list, c.name);
    lemma_position_push(list, c, c.name);
    assert forall|i: int, j: int| 0 <= i < j < longer.len() implies longer[i].name
        != longer[j].name by {
        if j == list.len() {
            assert(list[i].name != c.name);
        }
    }
    assert forall|name: Seq<char>| name != c.name implies #[trigger] meta_of(longer, name)
        == meta_of(list, name) by {
        lemma_position_push(list, c, name);
        lemma_position(list, name);
    }
    assert forall|name: Seq<char>| name != c.name implies #[trigger] indexes_of(longer, name)
        == indexes_of(list, name) by {
        lemma_position_push(list, c, name);
        lemma_position(list, name);
    }
}

/// The page of an index that has no entries.
pub open spec fn empty_leaf() -> Seq<u8> {
    page_bytes(PageModel { kind: PageType::IndexLeaf, next: 0, slots: seq![] })
}

/// An empty leaf is a tree without entries.
proof fn lemma_empty_leaf(pages: Map<PageId, Seq<u8>>, root: PageId)
    requires
        pages.dom().contains(root),
        pages[root] == empty_leaf(),
    ensures
        tree_entries(pages, root) == Some(Seq::<IndexEntry>::empty()),
        tree_pages(pages, root) == seq![root],
{
    let m = PageModel { kind: PageType::IndexLeaf, next: 0, slots: seq![] };
    page_reads_back(m);
    let none: Seq<IndexEntry> = seq![];
    let t = Tree::Leaf { id: root, entries: none, next: 0 };
    assert(live(m.slots) =~= leaf_cells(none));
    assert(ids(t).no_duplicates());
    assert(is_tree(pages, root, t));
    lemma_tree_at(pages, root, t);
}

/// What making an index, and listing it, does to the pages: its root is new
/// and empty, the catalog's chain may have a new page at its end, and
/// nothing else changes.
pub open spec fn root_made(
    before: Map<PageId, Seq<u8>>,
    after: Map<PageId, Seq<u8>>,
    root: PageId,
) -> bool {
    &&& root != 0
    &&& !before.dom().contains(root)
    &&& tree_entries(after, root) == Some(Seq::<IndexEntry>::empty())
    &&& tree_pages(after, root) == seq![root]
    &&& has_chain(after)
    &&& !chain(after).contains(root)
    &&& forall|p: PageId| #[trigger] chain(before).contains(p) ==> chain(after).contains(p)
    &&& forall|p: PageId| #[trigger]
        chain(after).contains(p) ==> chain(before).contains(p) || !before.dom().contains(p)
    &&& forall|p: PageId| #[trigger]
        after.dom().contains(p) <==> before.dom().contains(p) || chain(after).contains(p) || p
            == root
    &&& forall|p: PageId| #[trigger]
        before.dom().contains(p) && !chain(before).contains(p) ==> after[p] == before[p]
}

/// An index's root starts out as an empty leaf, written right away: the
/// index's first read would otherwise misread whatever the page held.
fn allocate_index_root<S: PageStore>(store: &mut S) -> (r: IoResult<PageId>)
    requires
        old(store).wf(),
    ensures
        final(store).wf(),
        final(store).reliable() == old(store).reliable(),
        old(store).packed() && r is Ok ==> final(store).packed(),
        match r {
            Ok(root) => root != 0 && !old(store).pages().dom().contains(root) && final(store).pages().dom() =~= old(store).pages().dom().insert(root) && final(store).pages()[root]
                == empty_leaf() && forall|p: PageId| #[trigger]
                old(store).pages().dom().contains(p) ==> final(store).pages()[p] == old(store).pages()[p],
            Err(_) => !old(store).reliable() || final(store).full(),
        },
{
    let root: PageId = match store.allocate_page() {
        Ok(root) => root,
        Err(e) => return Err(e),
    };
    proof {
        store.lemma_pages();
        assert(store.pages().dom().contains(root));
    }
    let page = SlottedPage::new(PageType::IndexLeaf);
    assert(page@ =~= (PageModel { kind: PageType::IndexLeaf, next: 0, slots: seq![] }));
    let bytes = page.into_bytes();
    match store.write_page(root, bytes.as_slice()) {
        Ok(()) => Ok(root),
        Err(e) => Err(e),
    }
}

/// Putting together the making of a root and of its cell.
proof fn lemma_root_made(
    before: Map<PageId, Seq<u8>>,
    middle: Map<PageId, Seq<u8>>,
    after: Map<PageId, Seq<u8>>,
    root: PageId,
)
    requires
        has_chain(before),
        root != 0,
        !before.dom().contains(root),
        middle.dom() =~= before.dom().insert(root),
        middle[root] == empty_leaf(),
        forall|p: PageId| #[trigger] before.dom().contains(p) ==> middle[p] == before[p],
        has_chain(middle) ==> catalog_written(middle, after),
    ensures
        has_chain(middle),
        chain(middle) == chain(before),
        catalog_cells(middle) == catalog_cells(before),
        root_made(before, after, root),
{
    let ids = chain(before);
    assert forall|p: PageId| #[trigger] ids.contains(p) implies before.dom().contains(p)
        && middle.dom().contains(p) && middle[p] == before[p] by {
        let i = choose|i: int| 0 <= i < ids.len() && ids[i] == p;
        assert(is_catalog_page(before, ids[i]));
    }
    lemma_catalog_frame(before, middle);
    assert(!ids.contains(root));
    assert(middle.dom().contains(root));
    assert(after.dom().contains(root));
    assert(after[root] == empty_leaf());
    lemma_empty_leaf(after, root);
    assert forall|p: PageId| #[trigger] chain(after).contains(p) implies ids.contains(p)
        || !before.dom().contains(p) by {
        assert(chain(middle).contains(p) || !middle.dom().contains(p));
    }
    assert forall|p: PageId| #[trigger]
        before.dom().contains(p) && !ids.contains(p) implies after[p] == before[p] by {
        assert(middle.dom().contains(p));
    }
    assert(!chain(after).contains(root)) by {
        if chain(after).contains(root) {
            assert(chain(middle).contains(root) || !middle.dom().contains(root));
        }
    }
}

/// An error about a name that is too long.
fn too_long(what: &str, len: usize, max: usize) -> (e: Error)
    ensures
        e matches Error::Io(io) && io.kind == ErrorKind::InvalidInput,
{
    let found = decimal_text(len as u64);
    let limit = decimal_text(max as u64);
    let message = join(
        &[what, " is ", found.as_str(), " bytes, longer than the limit of ", limit.as_str()],
    );
    Error::Io(IoError::new(ErrorKind::InvalidInput, message))
}

/// An error about a collection without the entry it should have.
fn entry_lost(name: &str, what: &str) -> (e: Error)
    ensures
        e matches Error::Io(io) && io.kind == ErrorKind::InvalidData,
{
    Error::Io(corrupt(join(&["collection ", quoted(name).as_str(), what]).as_str()))
}

/// Removes a collection's cell, which the catalog's pages hold.
fn remove_listed<S: PageStore>(store: &mut S, name: &str, cell: &[u8]) -> (r: Result<(), Error>)
    requires
        old(store).wf(),
    ensures
        final(store).wf(),
        final(store).reliable() == old(store).reliable(),
        has_chain(old(store).pages()) && catalog_cells(old(store).pages()).contains(cell@)
            ==> match r {
            Ok(()) => catalog_written(old(store).pages(), final(store).pages()) && catalog_cells(
                final(store).pages(),
            ).to_multiset() =~= catalog_cells(old(store).pages()).to_multiset().remove(cell@),
            Err(_) => !old(store).reliable(),
        },
{
    let wanted = Wanted::Cell(cell);
    let (page_id, page, slot) = match find_cell(store, &wanted) {
        Ok(Some(found)) => found,
        Ok(None) => {
            assert(wanted.accepts(cell@));
            return Err(entry_lost(name, " has no catalog entry"));
        },
        Err(e) => return Err(Error::Io(e)),
    };
    match remove_cell(store, page_id, page, slot) {
        Ok(()) => Ok(()),
        Err(e) => Err(Error::Io(e)),
    }
}

/// An error about an index whose collection is not there.
fn orphaned(collection: &str) -> (e: IoError)
    ensures
        e.kind == ErrorKind::InvalidData,
{
    let name = quoted(collection);
    corrupt(
        join(&["an index belongs to collection ", name.as_str(), ", which doesn't exist"]).as_str(),
    )
}

/// Whether an error says that an argument can't be used.
pub open spec fn is_invalid_input(e: Error) -> bool {
    e matches Error::Io(io) && io.kind == ErrorKind::InvalidInput
}

impl Catalog {
    /// Where a collection is listed.
    fn find(&self, name: &str) -> (at: usize)
        ensures
            at == position(self@, name@),
            at <= self.collections@.len(),
            self@.len() == self.collections@.len(),
    {
        let n: usize = self.collections.len();
        for i in 0..n
            invariant
                n == self.collections@.len(),
                self@.len() == n,
                forall|k: int| 0 <= k < i ==> (#[trigger] self@[k]).name != name@,
        {
            if str_equal(self.collections[i].name.as_str(), name) {
                proof {
                    assert(self@[i as int].name == name@);
                    lemma_position_is(self@, name@, i as int);
                }
                return i;
            }
            assert(self@[i as int].name == self.collections@[i as int].name@);
        }
        proof {
            lemma_position(self@, name@);
        }
        n
    }

    /// A catalog without collections.
    fn empty() -> (r: Catalog)
        ensures
            r@ == Seq::<CollectionModel>::empty(),
    {
        let r = Catalog { collections: Vec::new() };
        assert(r@ =~= Seq::<CollectionModel>::empty());
        r
    }

    /// Lists a collection, or replaces its whereabouts.
    fn set_meta(&mut self, name: String, meta: CollectionMeta)
        ensures
            final(self)@ == with_meta(old(self)@, name@, meta),
            exists_in(final(self)@, name@),
            indexes_of(final(self)@, name@) == indexes_of(old(self)@, name@),
    {
        let ghost before = self@;
        let at: usize = self.find(name.as_str());
        if at < self.collections.len() {
            self.collections[at].meta = meta;
        } else {
            self.collections.push(CatalogEntry { name, meta, indexes: Vec::new() });
        }
        proof {
            let after = with_meta(before, name@, meta);
            assert(self@.len() == after.len());
            assert forall|k: int| 0 <= k < after.len() implies self@[k] == after[k] by {
                if k == at {
                    assert(self@[k].indexes =~= after[k].indexes);
                }
            }
            assert(self@ =~= after);
            lemma_position(before, name@);
            lemma_position(after, name@);
            assert(after[at as int].name == name@);
            assert forall|k: int| 0 <= k < at implies (#[trigger] after[k]).name != name@ by {
                assert(before[k].name != name@);
            }
            lemma_position_is(after, name@, at as int);
            assert(indexes_of(after, name@) =~= indexes_of(before, name@));
        }
    }

    /// Adds an index to a collection that is listed.
    fn push_index(&mut self, at: usize, index: IndexMeta)
        requires
            at < old(self)@.len(),
        ensures
            final(self)@ == old(self)@.update(
                at as int,
                CollectionModel {
                    indexes: old(self)@[at as int].indexes.push(index@),
                    ..old(self)@[at as int]
                },
            ),
    {
        let ghost before = self@;
        self.collections[at].indexes.push(index);
        proof {
            let after = before.update(
                at as int,
                CollectionModel {
                    indexes: before[at as int].indexes.push(index@),
                    ..before[at as int]
                },
            );
            assert forall|k: int| 0 <= k < after.len() implies self@[k] == after[k] by {
                if k == at {
                    assert(self@[k].indexes =~= after[k].indexes);
                }
            }
            assert(self@ =~= after);
        }
    }

    /// Reads the catalog page chain (from page 1), decoding its cells into
    /// collections and indexes. If the file is fresh and page 1 doesn't
    /// exist yet, creates and initializes an empty catalog page first, then
    /// returns an empty catalog.
    #[verifier::rlimit(40)]
    pub fn load<S: PageStore>(store: &mut S) -> (r: IoResult<Catalog>)
        requires
            old(store).wf(),
        ensures
            final(store).wf(),
            final(store).reliable() == old(store).reliable(),
            old(store).packed() && r is Ok ==> final(store).packed(),
            old(store).pages().dom().contains(CATALOG_PAGE_ID) ==> final(store).pages() == old(store).pages(),
            match r {
                Ok(catalog) => if old(store).pages().dom().contains(CATALOG_PAGE_ID) {
                    has_chain(old(store).pages()) && loaded(catalog_cells(old(store).pages()))
                        == Some(catalog@)
                } else {
                    &&& catalog@ == Seq::<CollectionModel>::empty()
                    &&& agrees(catalog@, final(store).pages())
                    &&& chain(final(store).pages()) == seq![CATALOG_PAGE_ID]
                    &&& final(store).pages().dom() =~= old(store).pages().dom().insert(
                        CATALOG_PAGE_ID,
                    )
                    &&& forall|p: PageId| #[trigger]
                        old(store).pages().dom().contains(p) ==> final(store).pages()[p] == old(store).pages()[p]
                },
                Err(e) => !old(store).reliable() || (if old(store).pages().dom().contains(
                    CATALOG_PAGE_ID,
                ) {
                    &&& !has_chain(old(store).pages()) || loaded(
                        catalog_cells(old(store).pages()),
                    ) is None
                    &&& e.kind == ErrorKind::InvalidData
                    &&& loops(old(store).pages()) ==> e.message@ == loop_text(
                        page_again(old(store).pages()),
                    )
                } else {
                    final(store).full() || (!old(store).fresh() && e.kind
                        == ErrorKind::InvalidData)
                }),
            },
    {
        let ghost before = store.pages();
        match store.try_read_page(CATALOG_PAGE_ID) {
            Ok(Some(_)) => {},
            Ok(None) => {
                // Fresh file: make the first catalog page.
                let id: PageId = match store.allocate_page() {
                    Ok(id) => id,
                    Err(e) => return Err(e),
                };
                if id != CATALOG_PAGE_ID {
                    return Err(
                        corrupt("catalog page must be the first page ever allocated in the file"),
                    );
                }
                proof {
                    store.lemma_pages();
                    assert(store.pages().dom().contains(id));
                }
                let page = SlottedPage::new(PageType::Catalog);
                let ghost m = page@;
                let bytes = page.into_bytes();
                match store.write_page(id, bytes.as_slice()) {
                    Ok(()) => {},
                    Err(e) => return Err(e),
                }
                proof {
                    let after = store.pages();
                    let ids = seq![CATALOG_PAGE_ID];
                    assert(is_chain(after, ids)) by {
                        assert(is_catalog_page(after, ids[0]));
                        assert(page_at(after, ids[0]).next == link(ids, 0));
                    }
                    lemma_chain_unique(after, ids);
                    assert(ids.drop_last() =~= seq![]);
                    assert(m.slots.len() == 0);
                    assert(live(m.slots).len() == 0);
                    assert(page_at(after, ids.last()) == m);
                    assert(chain::chain_cells(after, ids.drop_last()).len() == 0);
                    let none: Seq<CollectionModel> = seq![];
                    assert(catalog_cells(after) =~= cells_of(none));
                }
                return Ok(Catalog::empty());
            },
            Err(e) => return Err(e),
        }
        let found = match read_chain(store) {
            Ok(found) => found,
            Err(e) => return Err(e),
        };
        let ghost chain_ids = chain(before);
        let ghost cells = catalog_cells(before);
        let entries = match decode_pages(&found, Ghost(before)) {
            Ok(entries) => entries,
            Err(e) => return Err(e),
        };
        let mut catalog = Catalog::empty();
        let n: usize = entries.len();
        assert(cells.take(0) =~= seq![]);
        for i in 0..n
            invariant
                n == entries@.len() == cells.len(),
                forall|k: int|
                    0 <= k < n ==> parse_entry(cells[k]) == Some((#[trigger] entries@[k])@),
                collections_in(cells.take(i as int)) == Some(catalog@),
        {
            proof {
                let more = cells.take(i + 1);
                assert(more.drop_last() =~= cells.take(i as int));
                assert(more.last() == cells[i as int]);
                assert(parse_entry(cells[i as int]) == Some(entries@[i as int]@));
            }
            match &entries[i] {
                Entry::Collection(name, meta) => {
                    catalog.set_meta(name.clone(), *meta);
                },
                Entry::Index(_, _) => {},
            }
        }
        assert(cells.take(n as int) =~= cells);
        let ghost list = catalog@;
        for i in 0..n
            invariant
                n == entries@.len() == cells.len(),
                forall|k: int|
                    0 <= k < n ==> parse_entry(cells[k]) == Some((#[trigger] entries@[k])@),
                collections_in(cells) == Some(list),
                with_indexes(list, cells.take(i as int)) == Some(catalog@),
                cells == catalog_cells(before),
                before == old(store).pages(),
                store.wf(),
                store.pages() == before,
                store.reliable() == old(store).reliable(),
                old(store).packed() ==> store.packed(),
                before.dom().contains(CATALOG_PAGE_ID),
                !loops(before),
        {
            proof {
                let more = cells.take(i + 1);
                assert(more.drop_last() =~= cells.take(i as int));
                assert(more.last() == cells[i as int]);
                assert(parse_entry(cells[i as int]) == Some(entries@[i as int]@));
            }
            match &entries[i] {
                Entry::Collection(_, _) => {},
                Entry::Index(collection, index) => {
                    let at: usize = catalog.find(collection.as_str());
                    if at >= catalog.collections.len() {
                        proof {
                            if with_indexes(list, cells) is Some {
                                lemma_with_indexes_prefix(list, cells, i + 1);
                            }
                        }
                        return Err(orphaned(collection.as_str()));
                    }
                    catalog.push_index(at, index.clone());
                },
            }
        }
        Ok(catalog)
    }

    /// The catalog's own pages: the chain from page 1.
    pub fn pages<S: PageStore>(store: &S) -> (r: IoResult<Vec<PageId>>)
        requires
            store.wf(),
        ensures
            has_chain(store.pages()) ==> match r {
                Ok(found) => found@ == chain(store.pages()),
                Err(_) => !store.reliable(),
            },
            match r {
                Ok(found) => linked(store.pages()) == Some(found@),
                Err(e) => !store.reliable() || (linked(store.pages()) is None && e.kind
                    == ErrorKind::InvalidData),
            },
    {
        let ghost pages = store.pages();
        let mut found: Vec<PageId> = Vec::new();
        let mut page_id: PageId = CATALOG_PAGE_ID;
        while page_id != 0
            invariant
                store.wf(),
                pages == store.pages(),
                linked(pages) == link_from(
                    pages,
                    page_id,
                    found@,
                    (0x1_0000_0000_0000_0000 - found@.len()) as nat,
                ),
                has_chain(pages) ==> walked(pages, found@, page_id),
            decreases usize::MAX - found.len(),
        {
            proof {
                if has_chain(pages) {
                    lemma_walked(pages, found@, page_id);
                    assert(is_catalog_page(pages, chain(pages)[found@.len() as int]));
                }
            }
            assert(found@.len() <= usize::MAX);
            if listed(&found, page_id) {
                proof {
                    if has_chain(pages) {
                        let k = choose|k: int| 0 <= k < found@.len() && found@[k] == page_id;
                        assert(chain(pages)[k] == chain(pages)[found@.len() as int]);
                    }
                }
                let number = decimal_text(page_id);
                return Err(
                    corrupt(join(&["the catalog chain loops at page ", number.as_str()]).as_str()),
                );
            }
            let ghost before = found@;
            found.push(page_id);
            assert(found@ =~= before.push(page_id));
            let bytes = match store.read_page(page_id) {
                Ok(bytes) => bytes,
                Err(e) => return Err(e),
            };
            let page = match SlottedPage::from_bytes(bytes) {
                Ok(page) => page,
                Err(e) => return Err(e),
            };
            proof {
                if has_chain(pages) {
                    assert forall|i: int| 0 <= i < found@.len() implies is_catalog_page(
                        pages,
                        #[trigger] found@[i],
                    ) && (i + 1 < found@.len() ==> page_at(pages, found@[i]).next == found@[i
                        + 1]) by {
                        if i < before.len() {
                            assert(found@[i] == before[i]);
                            if i + 1 < before.len() {
                                assert(found@[i + 1] == before[i + 1]);
                            }
                        }
                    }
                }
            }
            page_id = page.next_page();
        }
        proof {
            if has_chain(pages) {
                lemma_walked(pages, found@, 0);
                if found@.len() < chain(pages).len() {
                    assert(is_catalog_page(pages, chain(pages)[found@.len() as int]));
                }
                assert(found@ =~= chain(pages));
            }
        }
        Ok(found)
    }

    pub fn get(&self, name: &str) -> (r: Option<&CollectionMeta>)
        ensures
            match r {
                Some(meta) => meta_of(self@, name@) == Some(*meta),
                None => meta_of(self@, name@) is None,
            },
    {
        let at: usize = self.find(name);
        if at < self.collections.len() {
            assert(self@[at as int].meta == self.collections@[at as int].meta);
            Some(&self.collections[at].meta)
        } else {
            None
        }
    }

    /// Every collection's name.
    pub fn names(&self) -> (r: Vec<String>)
        ensures
            r@.len() == self@.len(),
            forall|i: int| 0 <= i < r@.len() ==> (#[trigger] r@[i])@ == self@[i].name,
    {
        let mut names: Vec<String> = Vec::new();
        let n: usize = self.collections.len();
        for i in 0..n
            invariant
                n == self.collections@.len(),
                names@.len() == i,
                forall|k: int| 0 <= k < i ==> (#[trigger] names@[k])@ == self@[k].name,
        {
            names.push(self.collections[i].name.clone());
            assert(self@[i as int].name == self.collections@[i as int].name@);
        }
        names
    }

    /// The collection's secondary indexes: empty if it has none, or doesn't
    /// exist.
    pub fn indexes(&self, collection: &str) -> (r: &[IndexMeta])
        ensures
            index_models(r@) == indexes_of(self@, collection@),
    {
        let at: usize = self.find(collection);
        if at < self.collections.len() {
            assert(self@[at as int].indexes == index_models(
                self.collections@[at as int].indexes@,
            ));
            self.collections[at].indexes.as_slice()
        } else {
            let none: &[IndexMeta] = &[];
            assert(index_models(none@) =~= seq![]);
            none
        }
    }
}

/// What the cells on the catalog's pages say.
fn decode_pages(found: &Vec<(PageId, SlottedPage)>, Ghost(pages): Ghost<Map<PageId, Seq<u8>>>) -> (r:
    IoResult<Vec<Entry>>)
    requires
        has_chain(pages),
        found@.len() == chain(pages).len(),
        forall|i: int|
            0 <= i < found@.len() ==> (#[trigger] found@[i]).0 == chain(pages)[i]
                && found@[i].1.wf() && found@[i].1@ == page_at(pages, found@[i].0),
    ensures
        match r {
            Ok(entries) => entries@.len() == catalog_cells(pages).len() && forall|k: int|
                0 <= k < entries@.len() ==> parse_entry(catalog_cells(pages)[k]) == Some(
                    (#[trigger] entries@[k])@,
                ),
            Err(e) => e.kind == ErrorKind::InvalidData && loaded(catalog_cells(pages)) is None,
        },
{
    let ghost ids = chain(pages);
    let mut entries: Vec<Entry> = Vec::new();
    let n: usize = found.len();
    assert(ids.take(0) =~= seq![]);
    for i in 0..n
        invariant
            n == found@.len() == ids.len(),
            ids == chain(pages),
            forall|i: int|
                0 <= i < found@.len() ==> (#[trigger] found@[i]).0 == chain(pages)[i]
                    && found@[i].1.wf() && found@[i].1@ == page_at(pages, found@[i].0),
            entries@.len() == chain::chain_cells(pages, ids.take(i as int)).len(),
            forall|k: int|
                0 <= k < entries@.len() ==> parse_entry(
                    chain::chain_cells(pages, ids.take(i as int))[k],
                ) == Some((#[trigger] entries@[k])@),
    {
        let ghost head = chain::chain_cells(pages, ids.take(i as int));
        let ghost whole = chain::chain_cells(pages, ids.take(i + 1));
        let ghost here = live(found@[i as int].1@.slots);
        proof {
            assert(ids.take(i + 1).drop_last() =~= ids.take(i as int));
            assert(ids.take(i + 1).last() == ids[i as int]);
            assert(found@[i as int].0 == ids[i as int]);
            assert(whole =~= head + here);
        }
        let cells = found[i].1.iter_cells();
        let m: usize = cells.len();
        for j in 0..m
            invariant
                m == cells@.len() == here.len(),
                0 <= i < n == ids.len(),
                ids == chain(pages),
                forall|k: int| 0 <= k < cells@.len() ==> (#[trigger] cells@[k]).1@ == here[k],
                whole == head + here,
                whole == chain::chain_cells(pages, ids.take(i + 1)),
                entries@.len() == head.len() + j,
                forall|k: int|
                    0 <= k < entries@.len() ==> parse_entry(whole[k]) == Some(
                        (#[trigger] entries@[k])@,
                    ),
        {
            let ghost at = head.len() + j;
            assert(whole[at] == here[j as int]);
            assert(cells@[j as int].1@ == here[j as int]);
            match decode_entry(cells[j].1) {
                Ok(entry) => entries.push(entry),
                Err(e) => {
                    proof {
                        if loaded(catalog_cells(pages)) is Some {
                            lemma_cells_prefix(pages, ids, i + 1);
                            assert(catalog_cells(pages)[at] == whole[at]);
                            lemma_collections_in_whole(catalog_cells(pages), at);
                        }
                    }
                    return Err(e);
                },
            }
        }
    }
    assert(ids.take(n as int) =~= ids);
    Ok(entries)
}

/// The cells of the first pages come first.
proof fn lemma_cells_prefix(pages: Map<PageId, Seq<u8>>, ids: Seq<PageId>, n: int)
    requires
        0 <= n <= ids.len(),
    ensures
        chain::chain_cells(pages, ids.take(n)).len() <= chain::chain_cells(pages, ids).len(),
        forall|k: int|
            0 <= k < chain::chain_cells(pages, ids.take(n)).len() ==> chain::chain_cells(
                pages,
                ids,
            )[k] == chain::chain_cells(pages, ids.take(n))[k],
    decreases ids.len(),
{
    if n < ids.len() {
        lemma_cells_prefix(pages, ids.drop_last(), n);
        assert(ids.drop_last().take(n) =~= ids.take(n));
    } else {
        assert(ids.take(n) =~= ids);
    }
}

// ---------------------------------------------------------------------
// Changes.

/// How long an index's cell is at most, for names that aren't too long.
pub proof fn lemma_index_cell_len(name: Seq<char>, index: IndexModel)
    requires
        short(name),
        1 <= index.fields.len() <= crate::index::key::MAX_COMPOUND_FIELDS,
        forall|i: int| 0 <= i < index.fields.len() ==> short(#[trigger] index.fields[i]),
    ensures
        index_cell(name, index).len() <= 4000,
{
    crate::bytes::lemma_le_len(index.root as nat, 8);
    lemma_short_texts_len(index.fields);
    assert(short(index.fields[0]));
}

/// Where `fields` have an index; the length of the list if they have none.
pub open spec fn index_position(indexes: Seq<IndexModel>, fields: Seq<Seq<char>>) -> nat
    decreases indexes.len(),
{
    if indexes.len() == 0 {
        0
    } else if indexes[0].fields == fields {
        0
    } else {
        1 + index_position(indexes.skip(1), fields)
    }
}

pub proof fn lemma_index_position(indexes: Seq<IndexModel>, fields: Seq<Seq<char>>)
    ensures
        index_position(indexes, fields) <= indexes.len(),
        index_position(indexes, fields) < indexes.len() ==> indexes[index_position(
            indexes,
            fields,
        ) as int].fields == fields,
        forall|i: int|
            0 <= i < index_position(indexes, fields) ==> (#[trigger] indexes[i]).fields != fields,
    decreases indexes.len(),
{
    if indexes.len() > 0 && indexes[0].fields != fields {
        let rest = indexes.skip(1);
        lemma_index_position(rest, fields);
        assert forall|i: int| 0 <= i < index_position(indexes, fields) implies (
        #[trigger] indexes[i]).fields != fields by {
            if i > 0 {
                assert(rest[i - 1] == indexes[i]);
            }
        }
        if index_position(indexes, fields) < indexes.len() {
            assert(rest[index_position(rest, fields) as int] == indexes[index_position(
                indexes,
                fields,
            ) as int]);
        }
    }
}

fn find_index(indexes: &Vec<IndexMeta>, fields: &[String]) -> (at: usize)
    ensures
        at == index_position(index_models(indexes@), texts(fields@)),
        at <= indexes@.len(),
{
    let n: usize = indexes.len();
    let ghost models = index_models(indexes@);
    for i in 0..n
        invariant
            n == indexes@.len(),
            models == index_models(indexes@),
            forall|k: int| 0 <= k < i ==> (#[trigger] models[k]).fields != texts(fields@),
    {
        if strings_equal(indexes[i].fields.as_slice(), fields) {
            proof {
                lemma_index_position(models, texts(fields@));
                assert(models[i as int].fields == texts(fields@));
                let at = index_position(models, texts(fields@)) as int;
                if at < i {
                    assert(models[at].fields != texts(fields@));
                }
            }
            return i;
        }
        assert(models[i as int].fields == texts(indexes@[i as int].fields@));
    }
    proof {
        lemma_index_position(models, texts(fields@));
    }
    n
}

/// The list without an index.
pub open spec fn without_index(list: Seq<CollectionModel>, i: int, k: int) -> Seq<CollectionModel> {
    list.update(i, CollectionModel { indexes: list[i].indexes.remove(k), ..list[i] })
}

/// An index was added to a collection: its cell was.
proof fn lemma_index_added(list: Seq<CollectionModel>, at: int, index: IndexModel)
    requires
        catalog_ok(list),
        0 <= at < list.len(),
        entry_fits(EntryModel::Index { collection: list[at].name, index }),
    ensures
        ({
            let c = CollectionModel { indexes: list[at].indexes.push(index), ..list[at] };
            catalog_ok(list.update(at, c)) && cells_of(list.update(at, c)).to_multiset()
                =~= cells_of(list).to_multiset().insert(index_cell(list[at].name, index))
        }),
{
    broadcast use vstd::seq_lib::group_to_multiset_ensures;

    let c = CollectionModel { indexes: list[at].indexes.push(index), ..list[at] };
    let cell = index_cell(list[at].name, index);
    let own = own_cells(list[at]);
    lemma_list_update(list, at, c);
    lemma_cells_update(list, at, c);
    assert(own_cells(c) =~= own.push(cell));
    lemma_gained(
        cells_of(list.update(at, c)).to_multiset(),
        cells_of(list).to_multiset(),
        own.to_multiset(),
        cell,
    );
    assert(fits_catalog(list[at]));
    assert(fits_catalog(c)) by {
        assert forall|i: int| 0 <= i < c.indexes.len() implies entry_fits(
            EntryModel::Index { collection: c.name, index: #[trigger] c.indexes[i] },
        ) by {
            if i < list[at].indexes.len() {
                assert(c.indexes[i] == list[at].indexes[i]);
            }
        }
    }
}

/// An index was taken from a collection: its cell was.
proof fn lemma_index_removed(list: Seq<CollectionModel>, at: int, k: int)
    requires
        catalog_ok(list),
        0 <= at < list.len(),
        0 <= k < list[at].indexes.len(),
    ensures
        catalog_ok(without_index(list, at, k)),
        cells_of(list).contains(index_cell(list[at].name, list[at].indexes[k])),
        cells_of(without_index(list, at, k)).to_multiset() =~= cells_of(list).to_multiset().remove(
            index_cell(list[at].name, list[at].indexes[k]),
        ),
{
    broadcast use vstd::seq_lib::group_to_multiset_ensures;

    let c = CollectionModel { indexes: list[at].indexes.remove(k), ..list[at] };
    let cell = index_cell(list[at].name, list[at].indexes[k]);
    let own = own_cells(list[at]);
    assert(own[k + 1] == cell);
    lemma_own_contained(list, at, k + 1);
    lemma_list_update(list, at, c);
    lemma_cells_update(list, at, c);
    assert(own_cells(c) =~= own.remove(k + 1));
    assert(own.to_multiset() =~= own.remove(k + 1).to_multiset().insert(cell));
    lemma_lost(
        cells_of(list.update(at, c)).to_multiset(),
        cells_of(list).to_multiset(),
        own.remove(k + 1).to_multiset(),
        cell,
    );
    assert(fits_catalog(list[at]));
    assert(fits_catalog(c)) by {
        assert forall|i: int| 0 <= i < c.indexes.len() implies entry_fits(
            EntryModel::Index { collection: c.name, index: #[trigger] c.indexes[i] },
        ) by {
            let j = if i < k {
                i
            } else {
                i + 1
            };
            assert(c.indexes[i] == list[at].indexes[j]);
        }
    }
}

/// A collection's whereabouts changed: its cell did.
proof fn lemma_meta_changed(list: Seq<CollectionModel>, at: int, meta: CollectionMeta)
    requires
        catalog_ok(list),
        0 <= at < list.len(),
    ensures
        ({
            let c = CollectionModel { meta, ..list[at] };
            &&& catalog_ok(list.update(at, c))
            &&& cells_of(list).contains(collection_cell(list[at].name, list[at].meta))
            &&& cells_of(list.update(at, c)).to_multiset() =~= cells_of(list).to_multiset().remove(
                collection_cell(list[at].name, list[at].meta),
            ).insert(collection_cell(list[at].name, meta))
        }),
{
    broadcast use vstd::seq_lib::group_to_multiset_ensures;

    let c = CollectionModel { meta, ..list[at] };
    let own = own_cells(list[at]);
    let was = collection_cell(list[at].name, list[at].meta);
    let now = collection_cell(list[at].name, meta);
    lemma_own_contained(list, at, 0);
    assert(own[0] == was);
    lemma_list_update(list, at, c);
    lemma_cells_update(list, at, c);
    let rest = own.remove(0);
    assert(own =~= rest.insert(0, was));
    assert(own_cells(c) =~= rest.insert(0, now));
    assert(own.to_multiset() =~= rest.to_multiset().insert(was));
    assert(own_cells(c).to_multiset() =~= rest.to_multiset().insert(now));
    lemma_replaced(
        cells_of(list.update(at, c)).to_multiset(),
        cells_of(list).to_multiset(),
        rest.to_multiset(),
        was,
        now,
    );
    assert(fits_catalog(list[at]));
    assert(fits_catalog(c)) by {
        assert(c.indexes == list[at].indexes);
    }
}

/// A collection without indexes was taken out: its cell was.
proof fn lemma_collection_removed(list: Seq<CollectionModel>, at: int)
    requires
        catalog_ok(list),
        0 <= at < list.len(),
        list[at].indexes.len() == 0,
    ensures
        catalog_ok(list.remove(at)),
        cells_of(list).contains(collection_cell(list[at].name, list[at].meta)),
        cells_of(list.remove(at)).to_multiset() =~= cells_of(list).to_multiset().remove(
            collection_cell(list[at].name, list[at].meta),
        ),
{
    broadcast use vstd::seq_lib::group_to_multiset_ensures;

    let cell = collection_cell(list[at].name, list[at].meta);
    let own = own_cells(list[at]);
    lemma_own_contained(list, at, 0);
    assert(own[0] == cell);
    let rest = lemma_cells_at(list, at);
    assert(list.take(at) + list.skip(at + 1) =~= list.remove(at));
    let none: Seq<Seq<u8>> = seq![];
    assert(own =~= none.push(cell));
    assert(own.to_multiset() =~= none.to_multiset().insert(cell));
    assert(cells_of(list).to_multiset() =~= rest.insert(cell)) by {
        assert forall|v: Seq<u8>| #[trigger] cells_of(list).to_multiset().count(v) == rest.insert(
            cell,
        ).count(v) by {}
    }
    assert(cells_of(list).to_multiset().remove(cell) =~= rest);
    let less = list.remove(at);
    assert forall|i: int| 0 <= i < less.len() implies fits_catalog(#[trigger] less[i]) by {
        let j = if i < at {
            i
        } else {
            i + 1
        };
        assert(less[i] == list[j]);
    }
    assert forall|i: int, j: int| 0 <= i < j < less.len() implies less[i].name != less[j].name by {
        let a = if i < at {
            i
        } else {
            i + 1
        };
        let b = if j < at {
            j
        } else {
            j + 1
        };
        assert(less[i] == list[a] && less[j] == list[b]);
    }
}

/// The cell that a collection's name finds is its own.
proof fn lemma_collection_hit(list: Seq<CollectionModel>, at: int, hit: Seq<u8>)
    requires
        catalog_ok(list),
        0 <= at < list.len(),
        cells_of(list).contains(hit),
        hit.len() >= entry::COLLECTION_NAME_AT,
        hit[0] == entry::KIND_COLLECTION,
        hit.skip(entry::COLLECTION_NAME_AT as int) == encode_utf8(list[at].name),
    ensures
        hit == collection_cell(list[at].name, list[at].meta),
{
    let (i, k) = lemma_cells_are(list, hit);
    match k {
        Some(k) => {
            lemma_kinds_differ(list[at].name, list[at].meta, list[i].name, list[i].indexes[k]);
        },
        None => {
            lemma_wanted_collection(list[at].name, hit, list[i].name, list[i].meta);
            assert(list[i].name == list[at].name);
            if i < at {
                assert(list[i].name != list[at].name);
            } else if at < i {
                assert(list[at].name != list[i].name);
            }
        },
    }
}

/// What one bag of cells holds the other does.
proof fn lemma_same_cells(a: Seq<Seq<u8>>, b: Seq<Seq<u8>>, cell: Seq<u8>)
    requires
        a.to_multiset() =~= b.to_multiset(),
        a.contains(cell),
    ensures
        b.contains(cell),
{
    broadcast use vstd::seq_lib::group_to_multiset_ensures;

    assert(a.to_multiset().count(cell) > 0);
    assert(b.to_multiset().count(cell) > 0);
}

/// Whether an index's names are short enough for a catalog cell.
fn has_cell(collection: &str, index: &IndexMeta) -> (r: bool)
    ensures
        r == entry_fits(EntryModel::Index { collection: collection@, index: index@ }),
{
    let n: usize = index.fields.len();
    if collection.as_bytes().len() > 255 || n == 0 || n > 255 {
        return false;
    }
    for i in 0..n
        invariant
            n == index.fields@.len(),
            forall|k: int| 0 <= k < i ==> short(#[trigger] index@.fields[k]),
    {
        assert(index@.fields[i as int] == index.fields@[i as int]@);
        if index.fields[i].as_str().as_bytes().len() > 255 {
            assert(!short(index@.fields[i as int]));
            return false;
        }
    }
    true
}

/// A change after a change is a change.
pub proof fn lemma_written_twice(
    a: Map<PageId, Seq<u8>>,
    b: Map<PageId, Seq<u8>>,
    c: Map<PageId, Seq<u8>>,
)
    requires
        catalog_written(a, b),
        catalog_written(b, c),
    ensures
        catalog_written(a, c),
{
    assert forall|p: PageId| #[trigger] chain(a).contains(p) implies chain(c).contains(p) by {
        assert(chain(b).contains(p));
    }
    assert forall|p: PageId| #[trigger] chain(c).contains(p) implies chain(a).contains(p)
        || !a.dom().contains(p) by {
        assert(chain(b).contains(p) || !b.dom().contains(p));
        assert(a.dom().contains(p) ==> b.dom().contains(p));
    }
    assert forall|p: PageId| #[trigger] c.dom().contains(p) <==> a.dom().contains(p)
        || chain(c).contains(p) by {
        assert(c.dom().contains(p) <==> b.dom().contains(p) || chain(c).contains(p));
        assert(b.dom().contains(p) <==> a.dom().contains(p) || chain(b).contains(p));
        assert(chain(b).contains(p) ==> chain(c).contains(p));
    }
    assert forall|p: PageId| #[trigger] a.dom().contains(p) && !chain(a).contains(p) implies c[p]
        == a[p] by {
        assert(b.dom().contains(p));
        assert(!chain(b).contains(p));
    }
}

/// No change is a change.
pub proof fn lemma_written_never(a: Map<PageId, Seq<u8>>)
    requires
        has_chain(a),
    ensures
        catalog_written(a, a),
{
    assert forall|p: PageId| #[trigger] chain(a).contains(p) implies a.dom().contains(p) by {
        let i = choose|i: int| 0 <= i < chain(a).len() && chain(a)[i] == p;
        assert(is_catalog_page(a, chain(a)[i]));
    }
}

impl Clone for Catalog {
    fn clone(&self) -> (r: Catalog)
        ensures
            r@ == self@,
    {
        let mut collections: Vec<CatalogEntry> = Vec::new();
        let n: usize = self.collections.len();
        for i in 0..n
            invariant
                n == self.collections@.len(),
                collections@.len() == i,
                forall|k: int| 0 <= k < i ==> (#[trigger] collections@[k])@ == self@[k],
        {
            let e = &self.collections[i];
            let indexes = clone_indexes(e.indexes.as_slice());
            collections.push(CatalogEntry { name: e.name.clone(), meta: e.meta, indexes });
            assert(collections@[i as int]@ =~= self@[i as int]);
        }
        let r = Catalog { collections };
        assert(r@ =~= self@);
        r
    }
}

/// Copies of some indexes.
pub fn clone_indexes(indexes: &[IndexMeta]) -> (r: Vec<IndexMeta>)
    ensures
        index_models(r@) == index_models(indexes@),
{
    let mut r: Vec<IndexMeta> = Vec::new();
    let n: usize = indexes.len();
    for i in 0..n
        invariant
            n == indexes@.len(),
            r@.len() == i,
            forall|k: int| 0 <= k < i ==> (#[trigger] r@[k])@ == indexes@[k]@,
    {
        r.push(indexes[i].clone());
    }
    assert(index_models(r@) =~= index_models(indexes@));
    r
}

impl Catalog {
    /// Records a new, empty collection.
    pub fn create_collection<S: PageStore>(&mut self, store: &mut S, name: &str) -> (r: Result<
        CollectionMeta,
        Error,
    >)
        requires
            old(store).wf(),
        ensures
            final(store).wf(),
            final(store).reliable() == old(store).reliable(),
            old(store).packed() && r is Ok ==> final(store).packed(),
            !short(name@) ==> r is Err && is_invalid_input(r->Err_0) && final(self)@ == old(self)@
                && final(store).pages() == old(store).pages(),
            r is Ok ==> exists_in(final(self)@, name@) && indexes_of(final(self)@, name@)
                == indexes_of(old(self)@, name@),
            r is Err ==> final(self)@ == old(self)@,
            short(name@) && agrees(old(self)@, old(store).pages()) && !exists_in(
                old(self)@,
                name@,
            ) ==> match r {
                Ok(meta) => {
                    &&& meta.current_data_page == 0
                    &&& root_made(old(store).pages(), final(store).pages(), meta.index_root)
                    &&& final(self)@ == old(self)@.push(
                        CollectionModel { name: name@, meta, indexes: seq![] },
                    )
                    &&& agrees(final(self)@, final(store).pages())
                },
                Err(_) => !old(store).reliable() || final(store).full(),
            },
    {
        broadcast use vstd::seq_lib::group_to_multiset_ensures;

        let len: usize = name.as_bytes().len();
        if len > MAX_COLLECTION_NAME_LEN {
            return Err(too_long("collection name", len, MAX_COLLECTION_NAME_LEN));
        }
        let ghost before = store.pages();
        let ghost list = self@;
        let root: PageId = match allocate_index_root(store) {
            Ok(root) => root,
            Err(e) => return Err(Error::Io(e)),
        };
        let ghost middle = store.pages();
        let meta = CollectionMeta { index_root: root, current_data_page: 0 };
        let cell = encode_collection(name, &meta);
        proof {
            crate::bytes::lemma_le_len(meta.index_root as nat, 8);
            crate::bytes::lemma_le_len(meta.current_data_page as nat, 8);
            if has_chain(before) {
                assert forall|p: PageId| #[trigger] chain(before).contains(p) implies middle.dom().contains(
                    p,
                ) && middle[p] == before[p] by {
                    let i = choose|i: int| 0 <= i < chain(before).len() && chain(before)[i] == p;
                    assert(is_catalog_page(before, chain(before)[i]));
                }
                lemma_catalog_frame(before, middle);
            }
        }
        match append_cell(store, cell.as_slice()) {
            Ok(()) => {},
            Err(e) => return Err(Error::Io(e)),
        }
        self.set_meta(String::from_str(name), meta);
        proof {
            if agrees(list, before) && !exists_in(list, name@) {
                let after = store.pages();
                lemma_root_made(before, middle, after, root);
                let c = CollectionModel { name: name@, meta, indexes: seq![] };
                lemma_position(list, name@);
                lemma_list_push(list, c);
                let longer = list.push(c);
                assert(longer.drop_last() =~= list);
                assert(own_cells(c) =~= seq![cell@]);
                assert(cells_of(longer) =~= cells_of(list).push(cell@));
                assert(fits_catalog(c));
                assert forall|i: int| 0 <= i < longer.len() implies fits_catalog(
                    #[trigger] longer[i],
                ) by {
                    if i < list.len() {
                        assert(longer[i] == list[i]);
                    }
                }
            }
        }
        Ok(meta)
    }

    /// Records a new, empty secondary index on `fields`; building it from
    /// the collection's documents is the caller's job. `collection` must
    /// exist and not have an index on `fields` yet.
    pub fn create_index<S: PageStore>(
        &mut self,
        store: &mut S,
        collection: &str,
        fields: &[String],
        options: IndexOptions,
    ) -> (r: Result<IndexMeta, Error>)
        requires
            old(store).wf(),
            exists_in(old(self)@, collection@),
            1 <= fields@.len() <= crate::index::key::MAX_COMPOUND_FIELDS,
            index_position(indexes_of(old(self)@, collection@), texts(fields@)) == indexes_of(
                old(self)@,
                collection@,
            ).len(),
        ensures
            final(store).wf(),
            final(store).reliable() == old(store).reliable(),
            old(store).packed() && r is Ok ==> final(store).packed(),
            r is Err ==> final(self)@ == old(self)@,
            (exists|i: int| 0 <= i < fields@.len() && !short((#[trigger] fields@[i])@)) ==> r is Err
                && is_invalid_input(r->Err_0) && final(store).pages() == old(store).pages(),
            (forall|i: int| 0 <= i < fields@.len() ==> short((#[trigger] fields@[i])@)) && agrees(
                old(self)@,
                old(store).pages(),
            ) ==> match r {
                Ok(index) => {
                    &&& index@ == (IndexModel {
                        fields: texts(fields@),
                        root: index.root,
                        unique: options.unique,
                        sparse: options.sparse,
                    })
                    &&& root_made(old(store).pages(), final(store).pages(), index.root)
                    &&& final(self)@ == with_index(old(self)@, collection@, index@)
                    &&& agrees(final(self)@, final(store).pages())
                },
                Err(_) => !old(store).reliable() || final(store).full(),
            },
    {
        proof {
            lemma_position(self@, collection@);
            if agrees(self@, store.pages()) {
                assert(fits_catalog(self@[position(self@, collection@) as int]));
            }
        }
        let n: usize = fields.len();
        for i in 0..n
            invariant
                n == fields@.len(),
                store.wf(),
                store.pages() == old(store).pages(),
                store.reliable() == old(store).reliable(),
                old(store).packed() ==> store.packed(),
                self@ == old(self)@,
                forall|k: int| 0 <= k < i ==> short((#[trigger] fields@[k])@),
        {
            let len: usize = fields[i].as_str().as_bytes().len();
            if len > MAX_FIELD_NAME_LEN {
                assert(!short(fields@[i as int]@));
                return Err(too_long("field name", len, MAX_FIELD_NAME_LEN));
            }
        }
        let len: usize = collection.as_bytes().len();
        if len > MAX_COLLECTION_NAME_LEN {
            return Err(too_long("collection name", len, MAX_COLLECTION_NAME_LEN));
        }
        let ghost before = store.pages();
        let ghost list = self@;
        let root: PageId = match allocate_index_root(store) {
            Ok(root) => root,
            Err(e) => return Err(Error::Io(e)),
        };
        let ghost middle = store.pages();
        let index = IndexMeta {
            fields: clone_strings(fields),
            root,
            unique: options.unique,
            sparse: options.sparse,
        };
        let ghost entry = EntryModel::Index { collection: collection@, index: index@ };
        proof {
            assert forall|i: int| 0 <= i < index@.fields.len() implies short(
                #[trigger] index@.fields[i],
            ) by {
                assert(index@.fields[i] == fields@[i]@);
            }
            lemma_index_cell_len(collection@, index@);
            if has_chain(before) {
                assert forall|p: PageId| #[trigger] chain(before).contains(p) implies middle.dom().contains(
                    p,
                ) && middle[p] == before[p] by {
                    let i = choose|i: int| 0 <= i < chain(before).len() && chain(before)[i] == p;
                    assert(is_catalog_page(before, chain(before)[i]));
                }
                lemma_catalog_frame(before, middle);
            }
        }
        let cell = encode_index(collection, &index);
        match append_cell(store, cell.as_slice()) {
            Ok(()) => {},
            Err(e) => return Err(Error::Io(e)),
        }
        let at: usize = self.find(collection);
        self.push_index(at, index.clone());
        proof {
            if agrees(list, before) {
                let after = store.pages();
                lemma_root_made(before, middle, after, root);
                lemma_position(list, collection@);
                lemma_index_added(list, at as int, index@);
            }
        }
        Ok(index)
    }

    /// Removes the index on `fields` from the catalog and returns it, so
    /// the caller can free its pages; `None` if there's no such index.
    pub fn drop_index<S: PageStore>(
        &mut self,
        store: &mut S,
        collection: &str,
        fields: &[String],
    ) -> (r: Result<Option<IndexMeta>, Error>)
        requires
            old(store).wf(),
        ensures
            final(store).wf(),
            final(store).reliable() == old(store).reliable(),
            ({
                let i = position(old(self)@, collection@) as int;
                let k = index_position(
                    indexes_of(old(self)@, collection@),
                    texts(fields@),
                ) as int;
                if k < indexes_of(old(self)@, collection@).len() {
                    &&& r matches Ok(found) ==> found matches Some(index) && index@ == indexes_of(
                        old(self)@,
                        collection@,
                    )[k] && final(self)@ == without_index(old(self)@, i, k)
                    &&& agrees(old(self)@, old(store).pages()) ==> match r {
                        Ok(_) => agrees(final(self)@, final(store).pages()) && catalog_written(
                            old(store).pages(),
                            final(store).pages(),
                        ),
                        Err(_) => !old(store).reliable(),
                    }
                } else {
                    r matches Ok(None) && final(self)@ == old(self)@ && final(store).pages()
                        == old(store).pages()
                }
            }),
    {
        let ghost before = store.pages();
        let ghost list = self@;
        let at: usize = self.find(collection);
        if at >= self.collections.len() {
            return Ok(None);
        }
        assert(self@[at as int].indexes == index_models(self.collections@[at as int].indexes@));
        let k: usize = find_index(&self.collections[at].indexes, fields);
        if k >= self.collections[at].indexes.len() {
            return Ok(None);
        }
        let index = self.collections[at].indexes.remove(k);
        proof {
            let c = CollectionModel {
                indexes: list[at as int].indexes.remove(k as int),
                ..list[at as int]
            };
            assert(index@ == list[at as int].indexes[k as int]);
            assert(self@ =~= without_index(list, at as int, k as int)) by {
                assert(self@[at as int].indexes =~= c.indexes);
            }
            lemma_position(list, collection@);
            if agrees(list, before) {
                assert(fits_catalog(list[at as int]));
                assert(entry_fits(
                    EntryModel::Index {
                        collection: collection@,
                        index: list[at as int].indexes[k as int],
                    },
                ));
            }
        }
        if !has_cell(collection, &index) {
            return Err(Error::Io(corrupt("an index's names are too long for its catalog entry")));
        }
        let cell = encode_index(collection, &index);
        proof {
            if agrees(list, before) {
                lemma_index_removed(list, at as int, k as int);
                lemma_same_cells(cells_of(list), catalog_cells(before), cell@);
            }
        }
        let wanted = Wanted::Cell(cell.as_slice());
        let (page_id, page, slot) = match find_cell(store, &wanted) {
            Ok(Some(found)) => found,
            Ok(None) => {
                let name = index.name();
                return Err(
                    Error::Io(
                        corrupt(
                            join(
                                &["index ", collection, ".", name.as_str(), " has no catalog entry"],
                            ).as_str(),
                        ),
                    ),
                );
            },
            Err(e) => return Err(Error::Io(e)),
        };
        match remove_cell(store, page_id, page, slot) {
            Ok(()) => {},
            Err(e) => return Err(Error::Io(e)),
        }
        Ok(Some(index))
    }

    /// Records a collection's new current data page, in its catalog cell
    /// and in the cache. The cell keeps its length (only a fixed-width
    /// field changes), so it's rewritten in place.
    pub fn set_current_data_page<S: PageStore>(
        &mut self,
        store: &mut S,
        name: &str,
        page: PageId,
    ) -> (r: Result<(), Error>)
        requires
            old(store).wf(),
            exists_in(old(self)@, name@),
        ensures
            final(store).wf(),
            final(store).reliable() == old(store).reliable(),
            old(store).packed() && r is Ok ==> final(store).packed(),
            ({
                let i = position(old(self)@, name@) as int;
                let meta = CollectionMeta {
                    current_data_page: page,
                    ..old(self)@[i].meta
                };
                &&& final(self)@ == old(self)@.update(
                    i,
                    CollectionModel { meta, ..old(self)@[i] },
                )
                &&& agrees(old(self)@, old(store).pages()) ==> match r {
                    Ok(()) => agrees(final(self)@, final(store).pages()) && catalog_written(
                        old(store).pages(),
                        final(store).pages(),
                    ),
                    Err(_) => !old(store).reliable(),
                }
            }),
    {
        let ghost before = store.pages();
        let ghost list = self@;
        let at: usize = self.find(name);
        proof {
            lemma_position(list, name@);
            assert(self.collections@[at as int].meta == list[at as int].meta);
        }
        let meta = CollectionMeta {
            index_root: self.collections[at].meta.index_root,
            current_data_page: page,
        };
        self.collections[at].meta = meta;
        let ghost c = CollectionModel { meta, ..list[at as int] };
        proof {
            assert(self@ =~= list.update(at as int, c)) by {
                assert(self@[at as int].indexes =~= c.indexes);
            }
        }
        let cell = encode_collection(name, &meta);
        let ghost was = collection_cell(name@, list[at as int].meta);
        proof {
            lemma_wanted_collection(name@, was, name@, list[at as int].meta);
            if agrees(list, before) {
                lemma_meta_changed(list, at as int, meta);
                lemma_same_cells(cells_of(list), catalog_cells(before), was);
            }
        }
        let wanted = Wanted::Collection(name);
        let (page_id, slotted, slot) = match find_cell(store, &wanted) {
            Ok(Some(found)) => found,
            Ok(None) => {
                return Err(entry_lost(name, " is cached but has no catalog entry"));
            },
            Err(e) => return Err(Error::Io(e)),
        };
        let ghost hit = slotted@.slots[slot as int]->Some_0;
        proof {
            crate::bytes::lemma_le_len(meta.index_root as nat, 8);
            crate::bytes::lemma_le_len(meta.current_data_page as nat, 8);
            // A name's cell has one length, whatever it says.
            assert(hit.skip(17).len() == encode_utf8(name@).len());
            assert(hit.len() == cell@.len());
            if agrees(list, before) {
                lemma_same_cells(catalog_cells(before), cells_of(list), hit);
                lemma_collection_hit(list, at as int, hit);
            }
        }
        match replace_cell(store, page_id, slotted, slot, cell.as_slice()) {
            Ok(()) => {},
            Err(e) => return Err(Error::Io(e)),
        }
        Ok(())
    }
}

/// The list with a collection's first `n` indexes gone.
spec fn less_indexes(list: Seq<CollectionModel>, at: int, n: int) -> Seq<CollectionModel> {
    list.update(at, CollectionModel { indexes: list[at].indexes.skip(n), ..list[at] })
}

/// What dropping the next index does.
proof fn lemma_less_indexes(list: Seq<CollectionModel>, at: int, n: int)
    requires
        0 <= at < list.len(),
        at == position(list, list[at].name),
        0 <= n < list[at].indexes.len(),
    ensures
        ({
            let now = less_indexes(list, at, n);
            let fields = list[at].indexes[n].fields;
            &&& position(now, list[at].name) == at
            &&& indexes_of(now, list[at].name) == list[at].indexes.skip(n)
            &&& index_position(list[at].indexes.skip(n), fields) == 0
            &&& without_index(now, at, 0) == less_indexes(list, at, n + 1)
        }),
{
    let left = list[at].indexes.skip(n);
    let now = less_indexes(list, at, n);
    lemma_position_update(list, at, CollectionModel { indexes: left, ..list[at] }, list[at].name);
    assert(left[0] == list[at].indexes[n]);
    assert(left.remove(0) =~= list[at].indexes.skip(n + 1));
    assert(without_index(now, at, 0) =~= less_indexes(list, at, n + 1));
}

impl Catalog {
    /// Drops a collection's indexes, one after the other.
    fn drop_indexes<S: PageStore>(
        &mut self,
        store: &mut S,
        name: &str,
        at: usize,
        indexes: &Vec<IndexMeta>,
    ) -> (r: Result<(), Error>)
        requires
            old(store).wf(),
            at < old(self)@.len(),
            at == position(old(self)@, name@),
            old(self)@[at as int].name == name@,
            index_models(indexes@) == old(self)@[at as int].indexes,
        ensures
            final(store).wf(),
            final(store).reliable() == old(store).reliable(),
            r is Ok ==> final(self)@ == less_indexes(
                old(self)@,
                at as int,
                old(self)@[at as int].indexes.len() as int,
            ),
            agrees(old(self)@, old(store).pages()) ==> match r {
                Ok(()) => agrees(final(self)@, final(store).pages()) && catalog_written(
                    old(store).pages(),
                    final(store).pages(),
                ),
                Err(_) => !old(store).reliable(),
            },
    {
        let ghost before = store.pages();
        let ghost list = self@;
        let ghost good = agrees(list, before);
        let n: usize = indexes.len();
        let ghost all = list[at as int].indexes;
        proof {
            assert(all.skip(0) =~= all);
            assert(less_indexes(list, at as int, 0) =~= list);
            if good {
                lemma_written_never(before);
            }
        }
        for i in 0..n
            invariant
                n == indexes@.len() == all.len(),
                all == index_models(indexes@),
                all == list[at as int].indexes,
                0 <= at < list.len(),
                list[at as int].name == name@,
                at == position(list, name@),
                store.wf(),
                store.reliable() == old(store).reliable(),
                self@ == less_indexes(list, at as int, i as int),
                good ==> agrees(self@, store.pages()),
                good ==> catalog_written(before, store.pages()),
                before == old(store).pages(),
                list == old(self)@,
                good == agrees(list, before),
        {
            let ghost pages = store.pages();
            proof {
                lemma_less_indexes(list, at as int, i as int);
                assert(all[i as int] == indexes@[i as int]@);
                assert(all[i as int].fields == texts(indexes@[i as int].fields@));
            }
            match self.drop_index(store, name, indexes[i].fields.as_slice()) {
                Ok(_) => {},
                Err(e) => return Err(e),
            }
            proof {
                if good {
                    lemma_written_twice(before, pages, store.pages());
                }
            }
        }
        Ok(())
    }

    /// Removes the cell of a collection that has no indexes left.
    fn drop_bare<S: PageStore>(
        &mut self,
        store: &mut S,
        name: &str,
        at: usize,
    ) -> (r: Result<(), Error>)
        requires
            old(store).wf(),
            at < old(self)@.len(),
            old(self)@[at as int].name == name@,
            old(self)@[at as int].indexes.len() == 0,
        ensures
            final(store).wf(),
            final(store).reliable() == old(store).reliable(),
            r is Ok ==> final(self)@ == old(self)@.remove(at as int),
            agrees(old(self)@, old(store).pages()) ==> match r {
                Ok(()) => agrees(final(self)@, final(store).pages()) && catalog_written(
                    old(store).pages(),
                    final(store).pages(),
                ),
                Err(_) => !old(store).reliable(),
            },
    {
        let ghost before = store.pages();
        let ghost list = self@;
        let ghost good = agrees(list, before);
        assert(self.collections@[at as int].meta == list[at as int].meta);
        let meta: CollectionMeta = self.collections[at].meta;
        let cell = encode_collection(name, &meta);
        proof {
            if good {
                lemma_collection_removed(list, at as int);
                lemma_same_cells(cells_of(list), catalog_cells(before), cell@);
            }
        }
        match remove_listed(store, name, cell.as_slice()) {
            Ok(()) => {},
            Err(e) => return Err(e),
        }
        self.collections.remove(at);
        assert(self@ =~= list.remove(at as int));
        Ok(())
    }

    /// Removes a collection and its indexes from the catalog and returns
    /// them, so the caller can free their pages; `None` if there's no such
    /// collection.
    pub fn drop_collection<S: PageStore>(&mut self, store: &mut S, name: &str) -> (r: Result<
        Option<(CollectionMeta, Vec<IndexMeta>)>,
        Error,
    >)
        requires
            old(store).wf(),
        ensures
            final(store).wf(),
            final(store).reliable() == old(store).reliable(),
            if exists_in(old(self)@, name@) {
                &&& r matches Ok(found) ==> found matches Some((meta, indexes)) && meta_of(
                    old(self)@,
                    name@,
                ) == Some(meta) && index_models(indexes@) == indexes_of(old(self)@, name@)
                    && final(self)@ == old(self)@.remove(position(old(self)@, name@) as int)
                &&& agrees(old(self)@, old(store).pages()) ==> match r {
                    Ok(_) => agrees(final(self)@, final(store).pages()) && catalog_written(
                        old(store).pages(),
                        final(store).pages(),
                    ),
                    Err(_) => !old(store).reliable(),
                }
            } else {
                r matches Ok(None) && final(self)@ == old(self)@ && final(store).pages()
                    == old(store).pages()
            },
    {
        let ghost before = store.pages();
        let ghost list = self@;
        let ghost good = agrees(list, before);
        let at: usize = self.find(name);
        if at >= self.collections.len() {
            return Ok(None);
        }
        proof {
            lemma_position(list, name@);
            assert(self.collections@[at as int].meta == list[at as int].meta);
            assert(list[at as int].indexes == index_models(self.collections@[at as int].indexes@));
        }
        let meta: CollectionMeta = self.collections[at].meta;
        let indexes = clone_indexes(self.collections[at].indexes.as_slice());
        match self.drop_indexes(store, name, at, &indexes) {
            Ok(()) => {},
            Err(e) => return Err(e),
        }
        let ghost pages = store.pages();
        let ghost now = self@;
        match self.drop_bare(store, name, at) {
            Ok(()) => {},
            Err(e) => return Err(e),
        }
        proof {
            assert(now.remove(at as int) =~= list.remove(at as int));
            if good {
                lemma_written_twice(before, pages, store.pages());
            }
        }
        Ok(Some((meta, indexes)))
    }
}

// ---------------------------------------------------------------------
// Reading a catalog back.

/// Which collections cells make: those that have a cell.
proof fn lemma_collections_in(cells: Seq<Seq<u8>>, list: Seq<CollectionModel>, n: int)
    requires
        catalog_ok(list),
        cells.to_multiset() =~= cells_of(list).to_multiset(),
        0 <= n <= cells.len(),
    ensures
        collections_in(cells.take(n)) matches Some(found) && names_distinct(found) && (forall|
            i: int,
        |
            0 <= i < found.len() ==> (#[trigger] found[i]).indexes.len() == 0 && meta_of(
                list,
                found[i].name,
            ) == Some(found[i].meta)) && (forall|k: int|
            0 <= k < n ==> (parse_entry(#[trigger] cells[k]) matches Some(
                EntryModel::Collection { name, meta },
            ) ==> exists_in(found, name))),
    decreases n,
{
    let now = cells.take(n);
    if n == 0 {
        assert(now.len() == 0);
    } else {
        lemma_collections_in(cells, list, n - 1);
        let front = collections_in(cells.take(n - 1))->Some_0;
        assert(now.drop_last() =~= cells.take(n - 1));
        assert(now.last() == cells[n - 1]);
        let cell = cells[n - 1];
        assert(cells.contains(cell));
        lemma_same_cells(cells, cells_of(list), cell);
        let (i, k) = lemma_cells_are(list, cell);
        assert(fits_catalog(list[i]));
        match k {
            Some(k) => {
                entry_reads_back(
                    EntryModel::Index { collection: list[i].name, index: list[i].indexes[k] },
                );
            },
            None => {
                let name = list[i].name;
                entry_reads_back(EntryModel::Collection { name, meta: list[i].meta });
                assert(forall|k: int| 0 <= k < i ==> (#[trigger] list[k]).name != name);
                lemma_position_is(list, name, i);
                let found = with_meta(front, name, list[i].meta);
                lemma_position(front, name);
                if exists_in(front, name) {
                    let at = position(front, name) as int;
                    lemma_list_update(
                        front,
                        at,
                        CollectionModel { meta: list[i].meta, ..front[at] },
                    );
                } else {
                    lemma_list_push(
                        front,
                        CollectionModel { name, meta: list[i].meta, indexes: seq![] },
                    );
                }
                assert forall|k: int| 0 <= k < n implies (parse_entry(#[trigger] cells[k]) matches Some(
                    EntryModel::Collection { name: other, meta },
                ) ==> exists_in(found, other)) by {
                    if k < n - 1 {
                        match parse_entry(cells[k]) {
                            Some(EntryModel::Collection { name: other, meta }) => {
                                assert(exists_in(front, other));
                                lemma_position(front, other);
                                if exists_in(front, name) {
                                    let at = position(front, name) as int;
                                    lemma_position_update(
                                        front,
                                        at,
                                        CollectionModel { meta: list[i].meta, ..front[at] },
                                        other,
                                    );
                                } else {
                                    lemma_position_push(
                                        front,
                                        CollectionModel {
                                            name,
                                            meta: list[i].meta,
                                            indexes: seq![],
                                        },
                                        other,
                                    );
                                }
                            },
                            _ => {},
                        }
                    }
                }
            },
        }
    }
}

/// Giving collections their indexes: each one's that has a cell, and no
/// other.
proof fn lemma_with_indexes(
    cells: Seq<Seq<u8>>,
    list: Seq<CollectionModel>,
    base: Seq<CollectionModel>,
    n: int,
)
    requires
        catalog_ok(list),
        cells.to_multiset() =~= cells_of(list).to_multiset(),
        0 <= n <= cells.len(),
        names_distinct(base),
        forall|i: int|
            0 <= i < base.len() ==> (#[trigger] base[i]).indexes.len() == 0 && meta_of(
                list,
                base[i].name,
            ) == Some(base[i].meta),
        forall|i: int| 0 <= i < list.len() ==> exists_in(base, (#[trigger] list[i]).name),
    ensures
        with_indexes(base, cells.take(n)) matches Some(found) && found.len() == base.len() && (
        forall|i: int|
            0 <= i < found.len() ==> (#[trigger] found[i]).name == base[i].name && found[i].meta
                == base[i].meta) && (forall|i: int, index: IndexModel|
            0 <= i < found.len() ==> ((#[trigger] found[i].indexes.contains(index)) <==> exists|
                k: int,
            |
                0 <= k < n && parse_entry(#[trigger] cells[k]) == Some(
                    EntryModel::Index { collection: found[i].name, index },
                ))),
    decreases n,
{
    let now = cells.take(n);
    if n == 0 {
        assert(now.len() == 0);
    } else {
        lemma_with_indexes(cells, list, base, n - 1);
        let front = with_indexes(base, cells.take(n - 1))->Some_0;
        assert(now.drop_last() =~= cells.take(n - 1));
        assert(now.last() == cells[n - 1]);
        let cell = cells[n - 1];
        assert(cells.contains(cell));
        lemma_same_cells(cells, cells_of(list), cell);
        let (at, k) = lemma_cells_are(list, cell);
        assert(fits_catalog(list[at]));
        match k {
            None => {
                entry_reads_back(
                    EntryModel::Collection { name: list[at].name, meta: list[at].meta },
                );
                assert forall|i: int, index: IndexModel| 0 <= i < front.len() implies ((
                #[trigger] front[i].indexes.contains(index)) <==> exists|k: int|
                    0 <= k < n && parse_entry(#[trigger] cells[k]) == Some(
                        EntryModel::Index { collection: front[i].name, index },
                    )) by {
                    if front[i].indexes.contains(index) {
                        let k = choose|k: int|
                            0 <= k < n - 1 && parse_entry(#[trigger] cells[k]) == Some(
                                EntryModel::Index { collection: front[i].name, index },
                            );
                        assert(0 <= k < n);
                    }
                }
            },
            Some(k) => {
                let name = list[at].name;
                let added = list[at].indexes[k];
                entry_reads_back(EntryModel::Index { collection: name, index: added });
                lemma_position(base, name);
                let j = position(base, name) as int;
                assert forall|m: int| 0 <= m < j implies (#[trigger] front[m]).name != name by {
                    assert(base[m].name != name);
                }
                lemma_position_is(front, name, j);
                let found = with_index(front, name, added);
                assert forall|i: int, index: IndexModel| 0 <= i < found.len() implies ((
                #[trigger] found[i].indexes.contains(index)) <==> exists|k: int|
                    0 <= k < n && parse_entry(#[trigger] cells[k]) == Some(
                        EntryModel::Index { collection: found[i].name, index },
                    )) by {
                    let had = front[i].indexes.contains(index);
                    if i == j {
                        let longer = front[i].indexes.push(added);
                        assert(found[i].indexes == longer);
                        if had {
                            let m = choose|m: int|
                                0 <= m < front[i].indexes.len() && front[i].indexes[m] == index;
                            assert(longer[m] == index);
                        }
                        if index == added {
                            assert(longer[longer.len() - 1] == index);
                            assert(parse_entry(cells[n - 1]) == Some(
                                EntryModel::Index { collection: found[i].name, index },
                            ));
                        }
                        if longer.contains(index) && index != added {
                            let m = choose|m: int| 0 <= m < longer.len() && longer[m] == index;
                            assert(front[i].indexes[m] == index);
                            assert(had);
                        }
                    } else {
                        assert(found[i] == front[i]);
                        assert(base[i].name != base[j].name) by {
                            if i < j {
                                assert(base[i].name != base[j].name);
                            } else {
                                assert(base[j].name != base[i].name);
                            }
                        }
                    }
                    if had {
                        let k = choose|k: int|
                            0 <= k < n - 1 && parse_entry(#[trigger] cells[k]) == Some(
                                EntryModel::Index { collection: front[i].name, index },
                            );
                        assert(0 <= k < n);
                    }
                    if exists|k: int|
                        0 <= k < n && parse_entry(#[trigger] cells[k]) == Some(
                            EntryModel::Index { collection: found[i].name, index },
                        ) {
                        let k = choose|k: int|
                            0 <= k < n && parse_entry(#[trigger] cells[k]) == Some(
                                EntryModel::Index { collection: found[i].name, index },
                            );
                        if k < n - 1 {
                            assert(had);
                        } else {
                            assert(index == added && found[i].name == name);
                        }
                    }
                }
            },
        }
    }
}

/// Whether no collection has an index twice.
pub open spec fn each_index_once(list: Seq<CollectionModel>) -> bool {
    forall|i: int| 0 <= i < list.len() ==> (#[trigger] list[i]).indexes.no_duplicates()
}

/// A cell of the catalog is the one of the entry it is read as.
proof fn lemma_cell_of_entry(list: Seq<CollectionModel>, cell: Seq<u8>)
    requires
        catalog_ok(list),
        cells_of(list).contains(cell),
    ensures
        parse_entry(cell) matches Some(entry) && entry_cell(entry) == cell,
{
    let (at, k) = lemma_cells_are(list, cell);
    assert(fits_catalog(list[at]));
    match k {
        None => entry_reads_back(
            EntryModel::Collection { name: list[at].name, meta: list[at].meta },
        ),
        Some(k) => {
            let index = list[at].indexes[k];
            entry_reads_back(EntryModel::Index { collection: list[at].name, index });
        },
    }
}

/// The entry of a collection's own cell.
spec fn own_entry(c: CollectionModel, k: int) -> EntryModel {
    if k == 0 {
        EntryModel::Collection { name: c.name, meta: c.meta }
    } else {
        EntryModel::Index { collection: c.name, index: c.indexes[k - 1] }
    }
}

proof fn lemma_own_entry(c: CollectionModel, k: int)
    requires
        fits_catalog(c),
        0 <= k < own_cells(c).len(),
    ensures
        parse_entry(own_cells(c)[k]) == Some(own_entry(c, k)),
{
    if k > 0 {
        assert(own_cells(c)[k] == index_cell(c.name, c.indexes[k - 1]));
    }
    entry_reads_back(own_entry(c, k));
}

/// A catalog without an index twice has no cell twice.
proof fn lemma_cells_once(list: Seq<CollectionModel>)
    requires
        catalog_ok(list),
        each_index_once(list),
    ensures
        cells_of(list).no_duplicates(),
    decreases list.len(),
{
    if list.len() > 0 {
        let front = list.drop_last();
        let last = list.last();
        let head = cells_of(front);
        let own = own_cells(last);
        assert forall|i: int| 0 <= i < front.len() implies fits_catalog(#[trigger] front[i])
            && front[i].indexes.no_duplicates() by {
            assert(front[i] == list[i]);
        }
        lemma_cells_once(front);
        assert(fits_catalog(last) && last.indexes.no_duplicates());
        let whole = cells_of(list);
        assert forall|i: int, j: int| 0 <= i < j < whole.len() implies whole[i] != whole[j] by {
            if j < head.len() {
                assert(head[i] != head[j]);
            } else {
                lemma_own_entry(last, j - head.len());
                if i < head.len() {
                    assert(head.contains(head[i]));
                    let (at, k) = lemma_cells_are(front, head[i]);
                    assert(fits_catalog(front[at]));
                    assert(list[at].name != list[list.len() - 1].name);
                    match k {
                        None => lemma_own_entry(front[at], 0),
                        Some(k) => {
                            assert(own_cells(front[at])[k + 1] == head[i]);
                            lemma_own_entry(front[at], k + 1);
                        },
                    }
                } else {
                    lemma_own_entry(last, i - head.len());
                    if i > head.len() {
                        assert(last.indexes[i - head.len() - 1] != last.indexes[j - head.len()
                            - 1]);
                    }
                }
            }
        }
    }
}

/// Where no cell comes twice, no collection gets an index twice.
proof fn lemma_indexes_once(
    cells: Seq<Seq<u8>>,
    list: Seq<CollectionModel>,
    base: Seq<CollectionModel>,
    n: int,
)
    requires
        catalog_ok(list),
        cells.to_multiset() =~= cells_of(list).to_multiset(),
        cells.no_duplicates(),
        0 <= n <= cells.len(),
        names_distinct(base),
        forall|i: int|
            0 <= i < base.len() ==> (#[trigger] base[i]).indexes.len() == 0 && meta_of(
                list,
                base[i].name,
            ) == Some(base[i].meta),
        forall|i: int| 0 <= i < list.len() ==> exists_in(base, (#[trigger] list[i]).name),
    ensures
        with_indexes(base, cells.take(n)) matches Some(found) && each_index_once(found),
    decreases n,
{
    let now = cells.take(n);
    lemma_with_indexes(cells, list, base, n);
    if n > 0 {
        lemma_indexes_once(cells, list, base, n - 1);
        lemma_with_indexes(cells, list, base, n - 1);
        let front = with_indexes(base, cells.take(n - 1))->Some_0;
        let found = with_indexes(base, now)->Some_0;
        assert(now.drop_last() =~= cells.take(n - 1));
        assert(now.last() == cells[n - 1]);
        let cell = cells[n - 1];
        assert(cells.contains(cell));
        lemma_same_cells(cells, cells_of(list), cell);
        lemma_cell_of_entry(list, cell);
        match parse_entry(cell)->Some_0 {
            EntryModel::Collection { .. } => {},
            EntryModel::Index { collection, index } => {
                let j = position(front, collection) as int;
                lemma_position(front, collection);
                assert forall|i: int| 0 <= i < found.len() implies (
                #[trigger] found[i]).indexes.no_duplicates() by {
                    assert(front[i].indexes.no_duplicates());
                    if i == j && front[j].indexes.contains(index) {
                        let k = choose|k: int|
                            0 <= k < n - 1 && parse_entry(#[trigger] cells[k]) == Some(
                                EntryModel::Index { collection: front[j].name, index },
                            );
                        assert(cells.contains(cells[k]));
                        lemma_same_cells(cells, cells_of(list), cells[k]);
                        lemma_cell_of_entry(list, cells[k]);
                        assert(cells[k] == cells[n - 1]);
                    }
                }
            },
        }
    }
}

/// Whether two catalogs say the same: of the same collections, with the same
/// indexes, in whatever order.
pub open spec fn same_catalog(list: Seq<CollectionModel>, found: Seq<CollectionModel>) -> bool {
    &&& forall|name: Seq<char>|
        #![trigger meta_of(found, name)]
        meta_of(found, name) == meta_of(list, name)
    &&& forall|name: Seq<char>, index: IndexModel|
        #![trigger indexes_of(found, name).contains(index)]
        indexes_of(found, name).contains(index) <==> indexes_of(list, name).contains(index)
}

/// A cell of one catalog is one of a catalog that says the same.
proof fn lemma_cell_of_same(
    list: Seq<CollectionModel>,
    found: Seq<CollectionModel>,
    cell: Seq<u8>,
)
    requires
        names_distinct(list),
        forall|name: Seq<char>| #[trigger] meta_of(list, name) == meta_of(found, name),
        forall|name: Seq<char>, index: IndexModel| #[trigger]
            indexes_of(list, name).contains(index) ==> indexes_of(found, name).contains(index),
        cells_of(list).contains(cell),
    ensures
        cells_of(found).contains(cell),
{
    let (a, b) = lemma_cells_are(list, cell);
    let name = list[a].name;
    lemma_place(list, a);
    lemma_position(found, name);
    assert(meta_of(list, name) == meta_of(found, name));
    let i = position(found, name) as int;
    match b {
        None => {
            lemma_own_contained(found, i, 0);
            assert(own_cells(found[i])[0] == cell);
        },
        Some(k) => {
            let index = list[a].indexes[k];
            assert(indexes_of(list, name).contains(index));
            assert(indexes_of(found, name).contains(index));
            let j = choose|j: int|
                0 <= j < found[i].indexes.len() && found[i].indexes[j] == index;
            lemma_own_contained(found, i, j + 1);
            assert(own_cells(found[i])[j + 1] == cell);
        },
    }
}

/// Where no name is twice, each is where it is.
pub proof fn lemma_place(list: Seq<CollectionModel>, at: int)
    requires
        names_distinct(list),
        0 <= at < list.len(),
    ensures
        position(list, list[at].name) == at,
        exists_in(list, list[at].name),
{
    assert forall|k: int| 0 <= k < at implies (#[trigger] list[k]).name != list[at].name by {}
    lemma_position_is(list, list[at].name, at);
}

/// Catalogs that say the same have the same cells.
proof fn lemma_same_catalog(list: Seq<CollectionModel>, found: Seq<CollectionModel>)
    requires
        catalog_ok(list),
        each_index_once(list),
        names_distinct(found),
        each_index_once(found),
        same_catalog(list, found),
    ensures
        catalog_ok(found),
        cells_of(found).to_multiset() =~= cells_of(list).to_multiset(),
{
    broadcast use vstd::seq_lib::group_to_multiset_ensures;

    assert forall|i: int| 0 <= i < found.len() implies fits_catalog(#[trigger] found[i]) by {
        let name = found[i].name;
        lemma_place(found, i);
        lemma_position(list, name);
        assert(meta_of(found, name) == meta_of(list, name));
        let at = position(list, name) as int;
        assert(fits_catalog(list[at]));
        assert forall|k: int| 0 <= k < found[i].indexes.len() implies entry_fits(
            EntryModel::Index { collection: name, index: #[trigger] found[i].indexes[k] },
        ) by {
            let index = found[i].indexes[k];
            assert(indexes_of(found, name).contains(index));
            let j = choose|j: int| 0 <= j < list[at].indexes.len() && list[at].indexes[j] == index;
            assert(entry_fits(
                EntryModel::Index { collection: name, index: list[at].indexes[j] },
            ));
        }
    }
    lemma_cells_once(list);
    lemma_cells_once(found);
    let a = cells_of(list);
    let b = cells_of(found);
    a.lemma_multiset_has_no_duplicates();
    b.lemma_multiset_has_no_duplicates();
    assert forall|cell: Seq<u8>| #[trigger] a.contains(cell) <==> b.contains(cell) by {
        if a.contains(cell) {
            lemma_cell_of_same(list, found, cell);
        }
        if b.contains(cell) {
            assert forall|name: Seq<char>| #[trigger] meta_of(found, name) == meta_of(
                list,
                name,
            ) by {}
            lemma_cell_of_same(found, list, cell);
        }
    }
    assert forall|cell: Seq<u8>| a.to_multiset().count(cell) == b.to_multiset().count(cell) by {
        assert(a.contains(cell) <==> b.contains(cell));
        assert(a.to_multiset().contains(cell) <==> a.contains(cell));
        assert(b.to_multiset().contains(cell) <==> b.contains(cell));
    }
}

/// A catalog survives a reopen: the one loaded from pages that hold what a
/// catalog says, says the same. It has the same collections, each where it
/// was, and each with the same indexes, none twice if none was; and then the
/// pages hold what it says.
pub proof fn catalog_survives_reopen(list: Seq<CollectionModel>, pages: Map<PageId, Seq<u8>>)
    requires
        agrees(list, pages),
    ensures
        loaded(catalog_cells(pages)) matches Some(found) && same_catalog(list, found)
            && names_distinct(found) && (each_index_once(list) ==> each_index_once(found) && agrees(
            found,
            pages,
        )),
{
    let cells = catalog_cells(pages);
    let n = cells.len() as int;
    assert(cells.take(n) =~= cells);
    lemma_collections_in(cells, list, n);
    let base = collections_in(cells)->Some_0;
    assert forall|i: int| 0 <= i < list.len() implies exists_in(
        base,
        (#[trigger] list[i]).name,
    ) by {
        lemma_own_contained(list, i, 0);
        let cell = collection_cell(list[i].name, list[i].meta);
        assert(own_cells(list[i])[0] == cell);
        lemma_same_cells(cells_of(list), cells, cell);
        entry_reads_back(EntryModel::Collection { name: list[i].name, meta: list[i].meta });
        let k = choose|k: int| 0 <= k < cells.len() && cells[k] == cell;
        assert(parse_entry(cells[k]) is Some);
    }
    lemma_with_indexes(cells, list, base, n);
    let found = with_indexes(base, cells)->Some_0;
    if each_index_once(list) {
        lemma_cells_once(list);
        cells_of(list).lemma_multiset_has_no_duplicates();
        cells.lemma_multiset_has_no_duplicates_conv();
        lemma_indexes_once(cells, list, base, n);
    }
    assert forall|i: int, j: int| 0 <= i < j < found.len() implies found[i].name
        != found[j].name by {
        assert(base[i].name != base[j].name);
    }
    assert forall|name: Seq<char>|
        #![trigger meta_of(found, name)]
        meta_of(found, name) == meta_of(list, name) by {
        lemma_position(found, name);
        lemma_position(list, name);
        if exists_in(found, name) {
            let i = position(found, name) as int;
            assert(base[i].name == found[i].name);
        }
        if exists_in(list, name) {
            let i = position(list, name) as int;
            assert(exists_in(base, list[i].name));
            lemma_position(base, name);
            let j = position(base, name) as int;
            assert(found[j].name == name);
            if !exists_in(found, name) {
                assert(found[j].name != name);
            }
        }
    }
    assert forall|name: Seq<char>, index: IndexModel|
        #![trigger indexes_of(found, name).contains(index)]
        indexes_of(found, name).contains(index) <==> indexes_of(list, name).contains(index) by {
        lemma_position(found, name);
        lemma_position(list, name);
        assert(meta_of(found, name) == meta_of(list, name));
        if exists_in(list, name) {
            let i = position(list, name) as int;
            let j = position(found, name) as int;
            assert(fits_catalog(list[i]));
            if list[i].indexes.contains(index) {
                let k = choose|k: int|
                    0 <= k < list[i].indexes.len() && list[i].indexes[k] == index;
                let cell = index_cell(name, index);
                lemma_own_contained(list, i, k + 1);
                assert(own_cells(list[i])[k + 1] == cell);
                lemma_same_cells(cells_of(list), cells, cell);
                entry_reads_back(EntryModel::Index { collection: name, index: list[i].indexes[k] });
                let m = choose|m: int| 0 <= m < cells.len() && cells[m] == cell;
                assert(parse_entry(cells[m]) == Some(
                    EntryModel::Index { collection: found[j].name, index },
                ));
                assert(found[j].indexes.contains(index));
            }
            if found[j].indexes.contains(index) {
                let m = choose|m: int|
                    0 <= m < n && parse_entry(#[trigger] cells[m]) == Some(
                        EntryModel::Index { collection: found[j].name, index },
                    );
                assert(cells.contains(cells[m]));
                lemma_same_cells(cells, cells_of(list), cells[m]);
                let (a, b) = lemma_cells_are(list, cells[m]);
                assert(fits_catalog(list[a]));
                match b {
                    None => {
                        entry_reads_back(
                            EntryModel::Collection { name: list[a].name, meta: list[a].meta },
                        );
                    },
                    Some(b) => {
                        entry_reads_back(
                            EntryModel::Index {
                                collection: list[a].name,
                                index: list[a].indexes[b],
                            },
                        );
                        assert(list[a].name == name);
                        if a < i {
                            assert(list[a].name != name);
                        } else if i < a {
                            assert(list[i].name != list[a].name);
                        }
                        assert(list[i].indexes[b] == index);
                    },
                }
            }
        }
    }
    if each_index_once(list) {
        lemma_same_catalog(list, found);
    }
}

} // verus!

//! Compaction: everything copied into a new image with nothing free.

use crate::catalog::entry::{entry_fits, short, EntryModel, IndexModel};
use crate::catalog::{
    agrees, exists_in, fits_catalog, index_models, index_position, indexes_of, is_invalid_input,
    lemma_index_position, lemma_position, meta_of, position, Catalog, CollectionModel, IndexMeta,
    IndexOptions
};
use crate::catalog::chain::{chain, CATALOG_PAGE_ID};
use crate::check::{named_among, no_name_twice, sorted_names};
use crate::collection::apply::{
    contents_of, get_or_create_meta, insert_stored, stored_in, values_unique, written,
};
use crate::collection::find::lemma_readable;
use crate::collection::indexing::{
    existing_index, held_apart, index_built, index_with, indexes_changed, lemma_same_collision,
    make_index,
};
use crate::collection::packing::{
    all_packed, collection_leaves_full, collection_packed, comes_last, packed_leaves_are_full,
};
use crate::collection::state::{
    collection_docs, collection_sound, entries_at, index_sound, record_owned, records_owned,
    roots_distinct, sound, sound_with, Docs, Owner, Owners,
};
use crate::collection::usage::{all_used, busy, used_by, used_in};
use crate::collection::write::collision_among;
use crate::data::{record_at, storable, Records};
use crate::decode::corrupt;
use crate::document::{DocId, DocModel, Document};
use crate::encoding::encoded;
use crate::error::Error;
use crate::index::entries::sorted;
use crate::index::btree::{tree_entries, BTreeIndex};
use crate::index::key::MAX_COMPOUND_FIELDS;
use crate::index::node::entry_models;
use crate::index::tree::{has_tree, Entry};
use crate::index::Index;
use crate::order::{bytes_lt, lemma_lt_irreflexive};
use crate::secondary::documents_collide;
use crate::storage::{MemoryStore, PageId, PageStore, RecordLocation};
use crate::tidy::consistent;
use vstd::prelude::*;

verus! {

/// What a compaction did: the file's pages before and after, the header
/// included. Equal when it was already as small as a rebuild makes it: then
/// nothing was written.
#[derive(Debug, Clone, Copy, PartialEq, Eq, Structural)]
pub struct Compacted {
    pub pages_before: u64,
    pub pages_after: u64,
}

impl Compacted {
    /// What comes of a rebuild of this size; the second says whether to write
    /// it.
    pub fn decide(pages_before: u64, rebuilt: u64) -> (r: (Compacted, bool))
        ensures
            r.1 == (rebuilt < pages_before),
            r.0 == (Compacted {
                pages_before,
                pages_after: if rebuilt < pages_before {
                    rebuilt
                } else {
                    pages_before
                },
            }),
    {
        if rebuilt >= pages_before {
            // Already this small: rewriting it would gain nothing.
            (Compacted { pages_before, pages_after: pages_before }, false)
        } else {
            (Compacted { pages_before, pages_after: rebuilt }, true)
        }
    }
}

/// A new, empty database is sound.
pub proof fn new_database_is_sound(pages: Map<PageId, Seq<u8>>)
    requires
        agrees(Seq::<CollectionModel>::empty(), pages),
    ensures
        sound(pages, Seq::<CollectionModel>::empty()),
        forall|name: Seq<char>|
            stored_in(pages, Seq::<CollectionModel>::empty(), name) == Map::<
                Seq<u8>,
                DocModel,
            >::empty(),
{
    let none = Seq::<CollectionModel>::empty();
    let own: Owners = Map::new(|p: PageId| true, |p: PageId| Owner::Catalog);
    reveal(roots_distinct);
    assert(sound_with(pages, none, own));
}

/// Whether an index is on the same fields with the same options, in whatever
/// tree.
pub open spec fn same_index(a: IndexModel, b: IndexModel) -> bool {
    a.fields == b.fields && a.unique == b.unique && a.sparse == b.sparse
}

/// Whether the first `n` indexes are the same, in the same order.
pub open spec fn same_indexes(a: Seq<IndexModel>, b: Seq<IndexModel>) -> bool {
    a.len() == b.len() && forall|i: int|
        0 <= i < a.len() ==> same_index(#[trigger] a[i], b[i])
}

/// Whether a collection is the same in two databases: its documents and its
/// indexes.
pub open spec fn same_collection(
    pages: Map<PageId, Seq<u8>>,
    list: Seq<CollectionModel>,
    image: Map<PageId, Seq<u8>>,
    rebuilt: Seq<CollectionModel>,
    name: Seq<char>,
) -> bool {
    &&& exists_in(rebuilt, name)
    &&& stored_in(image, rebuilt, name) == stored_in(pages, list, name)
    &&& same_indexes(indexes_of(rebuilt, name), indexes_of(list, name))
    &&& !has_duplicates(stored_in(image, rebuilt, name), indexes_of(rebuilt, name))
}

/// Whether the image holds, in one collection, what was copied so far, and
/// elsewhere what it did.
#[verifier::opaque]
pub open spec fn copied(
    first: Map<PageId, Seq<u8>>,
    first_list: Seq<CollectionModel>,
    image: Map<PageId, Seq<u8>>,
    now: Seq<CollectionModel>,
    name: Seq<char>,
    held: Map<Seq<u8>, DocModel>,
) -> bool {
    &&& sound(image, now)
    &&& written_same(first, first_list, image, now, name, held)
    &&& indexes_of(now, name).len() == 0
}

/// Whether a collection's entries lead to its documents.
#[verifier::opaque]
spec fn source(pages: Map<PageId, Seq<u8>>, all: Seq<Entry>, docs: Docs) -> bool {
    &&& sorted(all)
    &&& forall|i: int|
        0 <= i < all.len() ==> record_at(pages, (#[trigger] all[i]).1) == Some(
            (all[i].0, docs[all[i].0].1),
        ) && docs.dom().contains(all[i].0) && storable(docs[all[i].0].1)
    &&& forall|id: Seq<u8>| #[trigger]
        docs.dom().contains(id) ==> all.contains((id, docs[id].0))
}

proof fn lemma_source(pages: Map<PageId, Seq<u8>>, list: Seq<CollectionModel>, name: Seq<char>)
    requires
        sound(pages, list),
        exists_in(list, name),
    ensures
        ({
            let c = list[position(list, name) as int];
            let all = entries_at(pages, c.meta.index_root);
            &&& has_tree(pages, c.meta.index_root)
            &&& tree_entries(pages, c.meta.index_root) == Some(all)
            &&& source(pages, all, collection_docs(pages, c))
            &&& stored_in(pages, list, name) == contents_of(collection_docs(pages, c))
        }),
{
    lemma_position(list, name);
    let at = position(list, name) as int;
    let own = choose|own: Owners| sound_with(pages, list, own);
    lemma_readable(pages, list, own, at);
    lemma_storable(pages, list, own, at);
    reveal(source);
    let docs = collection_docs(pages, list[at]);
    let all = entries_at(pages, list[at].meta.index_root);
    assert forall|i: int| 0 <= i < all.len() implies record_at(pages, (#[trigger] all[i]).1)
        == Some((all[i].0, docs[all[i].0].1)) && docs.dom().contains(all[i].0) && storable(
        docs[all[i].0].1,
    ) by {
        assert(all.contains(all[i]));
    }
}

/// The collection with a name.
spec fn at_name(list: Seq<CollectionModel>, name: Seq<char>) -> CollectionModel {
    list[position(list, name) as int]
}

/// Whether every document's id is below another.
pub open spec fn all_before(held: Map<Seq<u8>, DocModel>, id: Seq<u8>) -> bool {
    forall|other: Seq<u8>| #[trigger] held.dom().contains(other) ==> bytes_lt(other, id)
}

proof fn lemma_comes_last(
    pages: Map<PageId, Seq<u8>>,
    list: Seq<CollectionModel>,
    name: Seq<char>,
    held: Map<Seq<u8>, DocModel>,
    id: Seq<u8>,
)
    requires
        sound(pages, list),
        exists_in(list, name),
        stored_in(pages, list, name) == held,
        all_before(held, id),
    ensures
        comes_last(pages, at_name(list, name), id),
{
    lemma_source(pages, list, name);
    reveal(source);
    let c = at_name(list, name);
    let all = entries_at(pages, c.meta.index_root);
    assert forall|i: int| 0 <= i < all.len() implies bytes_lt((#[trigger] all[i]).0, id) by {
        assert(collection_docs(pages, c).dom().contains(all[i].0));
        assert(held.dom().contains(all[i].0));
    }
}

/// Copies one document into the image.
fn copy_one(
    rebuilt: &mut Catalog,
    image: &mut MemoryStore,
    name: &str,
    id: DocId,
    doc: &Document,
    first: Ghost<(Map<PageId, Seq<u8>>, Seq<CollectionModel>)>,
    so_far: Ghost<Map<Seq<u8>, DocModel>>,
) -> (r: Result<(), Error>)
    requires
        old(image).wf(),
    ensures
        final(image).wf(),
        copied(first@.0, first@.1, old(image).pages(), old(rebuilt)@, name@, so_far@) && storable(
            doc@,
        ) && !so_far@.dom().contains(id@) ==> match r {
            Ok(()) => copied(
                first@.0,
                first@.1,
                final(image).pages(),
                final(rebuilt)@,
                name@,
                so_far@.insert(id@, doc@),
            ),
            Err(e) => final(image).full() || is_invalid_input(e) && encoded(doc@).len()
                > u32::MAX,
        },
        old(image).packed() && r is Ok ==> final(image).packed(),
        copied(first@.0, first@.1, old(image).pages(), old(rebuilt)@, name@, so_far@) && storable(
            doc@,
        ) && !so_far@.dom().contains(id@) && r is Ok && all_used(
            old(image).pages(),
            old(rebuilt)@,
        ) && busy(old(image).pages(), at_name(old(rebuilt)@, name@)) ==> all_used(
            final(image).pages(),
            final(rebuilt)@,
        ) && busy(final(image).pages(), at_name(final(rebuilt)@, name@)),
        copied(first@.0, first@.1, old(image).pages(), old(rebuilt)@, name@, so_far@) && storable(
            doc@,
        ) && all_before(so_far@, id@) && r is Ok && all_packed(old(image).pages(), old(rebuilt)@)
            ==> all_packed(final(image).pages(), final(rebuilt)@),
{
    let ghost before = image.pages();
    let ghost before_list = rebuilt@;
    proof {
        reveal(copied);
        if copied(first@.0, first@.1, before, before_list, name@, so_far@) && all_before(
            so_far@,
            id@,
        ) {
            lemma_comes_last(before, before_list, name@, so_far@, id@);
            lemma_lt_irreflexive(id@);
        }
    }
    let r = insert_stored(rebuilt, image, name, id, doc);
    proof {
        if copied(first@.0, first@.1, before, before_list, name@, so_far@) && storable(doc@)
            && !so_far@.dom().contains(id@) && r is Ok {
            lemma_written_same(
                first@.0,
                first@.1,
                before,
                before_list,
                image.pages(),
                rebuilt@,
                name@,
                so_far@,
                so_far@.insert(id@, doc@),
            );
            assert(indexes_of(rebuilt@, name@) == indexes_of(before_list, name@));
        }
    }
    r
}

/// Copies a collection's documents, in id order, into the image.
fn copy_documents<S: PageStore>(
    catalog: &Catalog,
    store: &S,
    name: &str,
    rebuilt: &mut Catalog,
    image: &mut MemoryStore,
) -> (r: Result<(), Error>)
    requires
        store.wf(),
        old(image).wf(),
    ensures
        final(image).wf(),
        sound(store.pages(), catalog@) && exists_in(catalog@, name@) && copied(
            old(image).pages(),
            old(rebuilt)@,
            old(image).pages(),
            old(rebuilt)@,
            name@,
            Map::empty(),
        ) ==> match r {
            Ok(()) => copied(
                old(image).pages(),
                old(rebuilt)@,
                final(image).pages(),
                final(rebuilt)@,
                name@,
                stored_in(store.pages(), catalog@, name@),
            ),
            Err(e) => copy_error(
                e,
                stored_in(store.pages(), catalog@, name@),
                !store.reliable() || final(image).full(),
            ),
        },
        old(image).packed() && r is Ok ==> final(image).packed(),
        sound(store.pages(), catalog@) && exists_in(catalog@, name@) && copied(
            old(image).pages(),
            old(rebuilt)@,
            old(image).pages(),
            old(rebuilt)@,
            name@,
            Map::empty(),
        ) && r is Ok && all_used(old(image).pages(), old(rebuilt)@) && busy(
            old(image).pages(),
            at_name(old(rebuilt)@, name@),
        ) ==> all_used(final(image).pages(), final(rebuilt)@),
        sound(store.pages(), catalog@) && exists_in(catalog@, name@) && copied(
            old(image).pages(),
            old(rebuilt)@,
            old(image).pages(),
            old(rebuilt)@,
            name@,
            Map::empty(),
        ) && r is Ok && all_packed(old(image).pages(), old(rebuilt)@) ==> all_packed(
            final(image).pages(),
            final(rebuilt)@,
        ),
{
    let ghost pages = store.pages();
    let ghost list = catalog@;
    let ghost docs = collection_docs(pages, list[position(list, name@) as int]);
    let ghost held = stored_in(pages, list, name@);
    let ghost first = image.pages();
    let ghost first_list = rebuilt@;
    let ghost none: Map<Seq<u8>, DocModel> = Map::empty();
    let ghost tight = all_used(first, first_list) && busy(first, at_name(first_list, name@));
    let ghost good = sound(pages, list) && exists_in(list, name@) && copied(
        first,
        first_list,
        first,
        first_list,
        name@,
        none,
    );
    proof {
        if good {
            lemma_source(pages, list, name@);
        }
    }
    let meta = match catalog.get(name) {
        Some(meta) => meta,
        None => return Ok(()),
    };
    let entries = match BTreeIndex::new(meta.index_root).scan(store) {
        Ok(entries) => entries,
        Err(e) => return Err(Error::Io(e)),
    };
    let ghost all = entry_models(entries@);
    let mut records = Records::new(store);
    let n: usize = entries.len();
    proof {
        assert(first_docs(docs, all, 0) =~= none);
    }
    for i in 0..n
        invariant
            n == entries@.len(),
            all == entry_models(entries@),
            image.wf(),
            old(image).packed() ==> image.packed(),
            good && tight ==> all_used(image.pages(), rebuilt@) && busy(
                image.pages(),
                at_name(rebuilt@, name@),
            ),
            tight == (all_used(first, first_list) && busy(first, at_name(first_list, name@))),
            good && all_packed(first, first_list) ==> all_packed(image.pages(), rebuilt@),
            records.wf(),
            records.pages() == pages,
            records.reliable() == store.reliable(),
            good ==> source(pages, all, docs),
            good ==> held == contents_of(docs),
            good ==> copied(
                first,
                first_list,
                image.pages(),
                rebuilt@,
                name@,
                first_docs(docs, all, i as int),
            ),
            first == old(image).pages(),
            first_list == old(rebuilt)@,
            none == Map::<Seq<u8>, DocModel>::empty(),
            held == stored_in(pages, list, name@),
            good == (sound(pages, list) && exists_in(list, name@) && copied(
                first,
                first_list,
                first,
                first_list,
                name@,
                none,
            )),
            pages == store.pages(),
            list == catalog@,
    {
        let ghost so_far = first_docs(docs, all, i as int);
        let loc: RecordLocation = entries[i].1;
        proof {
            assert(all[i as int] == (entries@[i as int].0@, loc));
            if good {
                reveal(source);
                lemma_first_docs(docs, all, i as int);
                let id = all[i as int].0;
                assert(contents_of(docs).dom().contains(id) && contents_of(docs)[id]
                    == docs[id].1);
            }
        }
        let (id, doc) = match records.get(loc) {
            Ok(found) => found,
            Err(e) => return Err(Error::Io(e)),
        };
        match copy_one(
            rebuilt,
            image,
            name,
            id,
            &doc,
            Ghost((first, first_list)),
            Ghost(so_far),
        ) {
            Ok(()) => {},
            Err(e) => return Err(e),
        }
    }
    proof {
        if good {
            lemma_all_docs(pages, docs, all);
        }
    }
    Ok(())
}

proof fn lemma_all_docs(pages: Map<PageId, Seq<u8>>, docs: Docs, all: Seq<Entry>)
    requires
        source(pages, all, docs),
    ensures
        first_docs(docs, all, all.len() as int) == contents_of(docs),
{
    reveal(source);
    let whole = first_docs(docs, all, all.len() as int);
    let held = contents_of(docs);
    assert forall|id: Seq<u8>| #[trigger] held.dom().contains(id) implies whole.dom().contains(
        id,
    ) by {
        let e = (id, docs[id].0);
        assert(all.contains(e));
        let k = choose|k: int| 0 <= k < all.len() && all[k] == e;
        assert(all[k].0 == id);
    }
    assert(whole =~= held);
}

/// What a write leaves, as far as a copy is concerned.
pub open spec fn written_same(
    before: Map<PageId, Seq<u8>>,
    list: Seq<CollectionModel>,
    after: Map<PageId, Seq<u8>>,
    now: Seq<CollectionModel>,
    name: Seq<char>,
    held: Map<Seq<u8>, DocModel>,
) -> bool {
    &&& exists_in(now, name)
    &&& stored_in(after, now, name) == held
    &&& forall|other: Seq<char>|
        other != name ==> #[trigger] stored_in(after, now, other) == stored_in(before, list, other)
    &&& forall|other: Seq<char>|
        other != name ==> #[trigger] meta_of(now, other) == meta_of(list, other)
    &&& forall|other: Seq<char>| #[trigger] indexes_of(now, other) == indexes_of(list, other)
}

proof fn lemma_written_same(
    a: Map<PageId, Seq<u8>>,
    la: Seq<CollectionModel>,
    b: Map<PageId, Seq<u8>>,
    lb: Seq<CollectionModel>,
    c: Map<PageId, Seq<u8>>,
    lc: Seq<CollectionModel>,
    name: Seq<char>,
    held: Map<Seq<u8>, DocModel>,
    now: Map<Seq<u8>, DocModel>,
)
    requires
        written_same(a, la, b, lb, name, held),
        written(b, lb, c, lc, name, now),
    ensures
        written_same(a, la, c, lc, name, now),
{
    assert forall|other: Seq<char>| other != name implies #[trigger] stored_in(c, lc, other)
        == stored_in(a, la, other) by {
        assert(stored_in(c, lc, other) == stored_in(b, lb, other));
        assert(stored_in(b, lb, other) == stored_in(a, la, other));
    }
    assert forall|other: Seq<char>| other != name implies #[trigger] meta_of(lc, other) == meta_of(
        la,
        other,
    ) by {
        assert(meta_of(lc, other) == meta_of(lb, other));
        assert(meta_of(lb, other) == meta_of(la, other));
    }
    assert forall|other: Seq<char>| #[trigger] indexes_of(lc, other) == indexes_of(la, other) by {
        assert(indexes_of(lc, other) == indexes_of(lb, other));
        assert(indexes_of(lb, other) == indexes_of(la, other));
    }
}

/// The documents of the first `n` entries.
spec fn first_docs(
    docs: Docs,
    entries: Seq<Entry>,
    n: int,
) -> Map<Seq<u8>, DocModel> {
    Map::new(
        |id: Seq<u8>| exists|j: int| 0 <= j < n && (#[trigger] entries[j]).0 == id,
        |id: Seq<u8>| docs[id].1,
    )
}

proof fn lemma_first_docs(docs: Docs, entries: Seq<Entry>, i: int)
    requires
        sorted(entries),
        0 <= i < entries.len(),
    ensures
        first_docs(docs, entries, i + 1) == first_docs(docs, entries, i).insert(
            entries[i].0,
            docs[entries[i].0].1,
        ),
        !first_docs(docs, entries, i).dom().contains(entries[i].0),
        all_before(first_docs(docs, entries, i), entries[i].0),
{
    let a = first_docs(docs, entries, i);
    let b = first_docs(docs, entries, i + 1);
    let id = entries[i].0;
    lemma_lt_irreflexive(id);
    assert forall|other: Seq<u8>| #[trigger] a.dom().contains(other) implies bytes_lt(
        other,
        id,
    ) by {
        let j = choose|j: int| 0 <= j < i && (#[trigger] entries[j]).0 == other;
        assert(bytes_lt(entries[j].0, entries[i].0));
    }
    assert forall|other: Seq<u8>| #[trigger] b.dom().contains(other) <==> a.insert(
        id,
        docs[id].1,
    ).dom().contains(other) by {
        if b.dom().contains(other) && other != id {
            let j = choose|j: int| 0 <= j < i + 1 && (#[trigger] entries[j]).0 == other;
            assert(j < i);
        }
        if a.dom().contains(other) {
            let j = choose|j: int| 0 <= j < i && (#[trigger] entries[j]).0 == other;
            assert(0 <= j < i + 1 && entries[j].0 == other);
        }
        if other == id {
            assert(0 <= i < i + 1 && entries[i].0 == id);
        }
    }
    assert(b =~= a.insert(id, docs[id].1));
}

/// Whether some document is longer than a record can be.
pub open spec fn too_large(held: Map<Seq<u8>, DocModel>) -> bool {
    exists|id: Seq<u8>| #[trigger] held.dom().contains(id) && encoded(held[id]).len() > u32::MAX
}

/// Why documents can't be copied: one too large for a record, or a medium
/// that failed.
pub open spec fn copy_error(e: Error, held: Map<Seq<u8>, DocModel>, broken: bool) -> bool {
    broken || is_invalid_input(e) && too_large(held)
}

pub proof fn lemma_storable(
    pages: Map<PageId, Seq<u8>>,
    list: Seq<CollectionModel>,
    own: Owners,
    at: int,
)
    requires
        sound_with(pages, list, own),
        0 <= at < list.len(),
    ensures
        ({
            let docs = collection_docs(pages, list[at]);
            &&& forall|id: Seq<u8>| #[trigger]
                docs.dom().contains(id) ==> storable(docs[id].1)
            &&& forall|k: int|
                0 <= k < list[at].indexes.len() ==> index_fits(#[trigger] list[at].indexes[k])
        }),
{
    let c = list[at];
    let docs = collection_docs(pages, c);
    let primary = entries_at(pages, c.meta.index_root);
    lemma_readable(pages, list, own, at);
    reveal(collection_sound);
    reveal(records_owned);
    assert(collection_sound(pages, own, c));
    assert forall|id: Seq<u8>| #[trigger] docs.dom().contains(id) implies storable(docs[id].1) by {
        assert(primary.contains((id, docs[id].0)));
        let k = choose|k: int| 0 <= k < primary.len() && primary[k] == (id, docs[id].0);
        assert(record_owned(pages, own, c.meta.index_root, primary[k]));
    }
    assert(fits_catalog(c));
    assert forall|k: int| 0 <= k < c.indexes.len() implies index_fits(#[trigger] c.indexes[k]) by {
        assert(index_sound(pages, own, docs, c.indexes[k]));
        assert(entry_fits(EntryModel::Index { collection: c.name, index: c.indexes[k] }));
    }
}

/// Whether no collection has two indexes on the same fields.
pub open spec fn fields_distinct(list: Seq<CollectionModel>) -> bool {
    forall|name: Seq<char>| distinct_fields(#[trigger] indexes_of(list, name))
}

/// Whether no two indexes are on the same fields.
pub open spec fn distinct_fields(indexes: Seq<IndexModel>) -> bool {
    forall|i: int, j: int|
        0 <= i < j < indexes.len() ==> (#[trigger] indexes[i]).fields != (
        #[trigger] indexes[j]).fields
}

/// Whether some unique index has two documents with equal values.
pub open spec fn has_duplicates(
    held: Map<Seq<u8>, DocModel>,
    indexes: Seq<IndexModel>,
) -> bool {
    exists|k: int| 0 <= k < indexes.len() && (#[trigger] indexes[k]).unique && !held_apart(held, indexes[k])
}

/// Whether an error names a unique index and two documents with equal values.
pub open spec fn duplicate_named(
    e: Error,
    name: Seq<char>,
    held: Map<Seq<u8>, DocModel>,
    indexes: Seq<IndexModel>,
) -> bool {
    exists|k: int|
        0 <= k < indexes.len() && (#[trigger] indexes[k]).unique && collision_among(
            e,
            name,
            indexes[k],
            held,
        )
}

/// Whether the image has the first `k` indexes on a collection, its documents
/// the same.
#[verifier::opaque]
pub open spec fn indexed(
    first: Map<PageId, Seq<u8>>,
    first_list: Seq<CollectionModel>,
    image: Map<PageId, Seq<u8>>,
    now: Seq<CollectionModel>,
    name: Seq<char>,
    models: Seq<IndexModel>,
    k: int,
) -> bool {
    &&& indexes_changed(first, first_list, image, now, name, indexes_of(now, name))
    &&& same_indexes(indexes_of(now, name), models.take(k))
    &&& !has_duplicates(stored_in(image, now, name), indexes_of(now, name))
}

proof fn lemma_one_more(
    first: Map<PageId, Seq<u8>>,
    first_list: Seq<CollectionModel>,
    before: Map<PageId, Seq<u8>>,
    before_list: Seq<CollectionModel>,
    image: Map<PageId, Seq<u8>>,
    now: Seq<CollectionModel>,
    name: Seq<char>,
    models: Seq<IndexModel>,
    k: int,
    index: IndexModel,
)
    requires
        0 <= k < models.len(),
        indexed(first, first_list, before, before_list, name, models, k),
        index_built(before, before_list, image, now, name, index),
        same_index(index, models[k]),
    ensures
        indexed(first, first_list, image, now, name, models, k + 1),
{
    reveal(indexed);
    lemma_changed_twice(first, first_list, before, before_list, image, now, name);
    let had = indexes_of(before_list, name);
    let got = indexes_of(now, name);
    assert(got == had.push(index));
    let held = stored_in(image, now, name);
    assert(held == stored_in(before, before_list, name));
    assert forall|i: int| 0 <= i < got.len() && (#[trigger] got[i]).unique implies held_apart(
        held,
        got[i],
    ) by {
        if i < had.len() {
            assert(got[i] == had[i]);
            assert(had[i].unique);
        }
    }
    assert forall|i: int| 0 <= i < got.len() implies same_index(
        #[trigger] got[i],
        models.take(k + 1)[i],
    ) by {
        if i < k {
            assert(same_index(had[i], models.take(k)[i]));
        }
    }
}

proof fn lemma_not_there(
    first: Map<PageId, Seq<u8>>,
    first_list: Seq<CollectionModel>,
    before: Map<PageId, Seq<u8>>,
    before_list: Seq<CollectionModel>,
    name: Seq<char>,
    models: Seq<IndexModel>,
    k: int,
)
    requires
        0 <= k < models.len(),
        indexed(first, first_list, before, before_list, name, models, k),
        distinct_fields(models),
    ensures
        index_position(indexes_of(before_list, name), models[k].fields) == indexes_of(
            before_list,
            name,
        ).len(),
        sound(before, before_list),
        exists_in(before_list, name),
        stored_in(before, before_list, name) == stored_in(first, first_list, name),
{
    reveal(indexed);
    let had = indexes_of(before_list, name);
    lemma_index_position(had, models[k].fields);
    let j = index_position(had, models[k].fields) as int;
    if j < had.len() {
        assert(same_index(had[j], models.take(k)[j]));
        assert(models[j].fields == models[k].fields);
    }
}

/// Whether an index can be in a catalog.
pub open spec fn index_fits(index: IndexModel) -> bool {
    &&& 1 <= index.fields.len() <= MAX_COMPOUND_FIELDS
    &&& forall|i: int| 0 <= i < index.fields.len() ==> short(#[trigger] index.fields[i])
}

/// Builds one of a collection's indexes in the image.
fn copy_index(
    rebuilt: &mut Catalog,
    image: &mut MemoryStore,
    name: &str,
    index: &IndexMeta,
    first: Ghost<(Map<PageId, Seq<u8>>, Seq<CollectionModel>)>,
    models: Ghost<Seq<IndexModel>>,
    k: Ghost<int>,
) -> (r: Result<(), Error>)
    requires
        old(image).wf(),
    ensures
        final(image).wf(),
        indexed(first@.0, first@.1, old(image).pages(), old(rebuilt)@, name@, models@, k@)
            && distinct_fields(models@) && 0 <= k@ < models@.len() && index@ == models@[k@]
            && index_fits(index@) ==> match r {
            Ok(()) => indexed(
                first@.0,
                first@.1,
                final(image).pages(),
                final(rebuilt)@,
                name@,
                models@,
                k@ + 1,
            ),
            Err(e) => final(image).full() || index@.unique && collision_among(
                e,
                name@,
                index@,
                stored_in(first@.0, first@.1, name@),
            ),
        },
        old(image).packed() && r is Ok ==> final(image).packed(),
        indexed(first@.0, first@.1, old(image).pages(), old(rebuilt)@, name@, models@, k@)
            && distinct_fields(models@) && 0 <= k@ < models@.len() && index@ == models@[k@]
            && index_fits(index@) && r is Ok && all_used(old(image).pages(), old(rebuilt)@)
            ==> all_used(final(image).pages(), final(rebuilt)@),
        indexed(first@.0, first@.1, old(image).pages(), old(rebuilt)@, name@, models@, k@)
            && distinct_fields(models@) && 0 <= k@ < models@.len() && index@ == models@[k@]
            && index_fits(index@) && r is Ok && all_packed(old(image).pages(), old(rebuilt)@)
            ==> all_packed(final(image).pages(), final(rebuilt)@),
{
    let ghost before = image.pages();
    let ghost before_list = rebuilt@;
    let ghost good = indexed(first@.0, first@.1, before, before_list, name@, models@, k@)
        && distinct_fields(models@) && 0 <= k@ < models@.len() && index@ == models@[k@]
        && index_fits(index@);
    let ghost options = IndexOptions { unique: index.unique, sparse: index.sparse };
    let ghost held = stored_in(first@.0, first@.1, name@);
    proof {
        if good {
            lemma_not_there(first@.0, first@.1, before, before_list, name@, models@, k@);
        }
    }
    if index.fields.len() < 1 || index.fields.len() > MAX_COMPOUND_FIELDS {
        return Err(Error::Io(corrupt("an index has too few or too many fields")));
    }
    if existing_index(rebuilt.indexes(name), index.fields.as_slice()).is_some() {
        return Err(Error::Io(corrupt("two indexes are on the same fields")));
    }
    match make_index(rebuilt, image, name, index.fields.as_slice(), index.options(), true) {
        Ok(_) => {
            proof {
                if good {
                    let root = choose|root: PageId| #[trigger]
                        index_built(
                            before,
                            before_list,
                            image.pages(),
                            rebuilt@,
                            name@,
                            index_with(index@.fields, root, options),
                        );
                    lemma_one_more(
                        first@.0,
                        first@.1,
                        before,
                        before_list,
                        image.pages(),
                        rebuilt@,
                        name@,
                        models@,
                        k@,
                        index_with(index@.fields, root, options),
                    );
                }
            }
            Ok(())
        },
        Err(e) => {
            proof {
                if good && !image.full() {
                    let rootless = IndexModel {
                        fields: index@.fields,
                        root: 0,
                        unique: index.unique,
                        sparse: index.sparse,
                    };
                    assert(collision_among(e, name@, rootless, held));
                    lemma_same_collision(
                        held[e->DuplicateValue_existing@],
                        held[e->DuplicateValue_id@],
                        rootless,
                        index@,
                    );
                }
            }
            Err(e)
        },
    }
}

/// Builds a collection's indexes in the image, in order.
fn copy_indexes(
    catalog: &Catalog,
    name: &str,
    rebuilt: &mut Catalog,
    image: &mut MemoryStore,
) -> (r: Result<(), Error>)
    requires
        old(image).wf(),
    ensures
        final(image).wf(),
        indexes_usable(indexes_of(catalog@, name@)) && sound(old(image).pages(), old(rebuilt)@)
            && exists_in(old(rebuilt)@, name@) && indexes_of(old(rebuilt)@, name@).len() == 0
            ==> match r {
            Ok(()) => indexed(
                old(image).pages(),
                old(rebuilt)@,
                final(image).pages(),
                final(rebuilt)@,
                name@,
                indexes_of(catalog@, name@),
                indexes_of(catalog@, name@).len() as int,
            ),
            Err(e) => final(image).full() || duplicate_named(
                e,
                name@,
                stored_in(old(image).pages(), old(rebuilt)@, name@),
                indexes_of(catalog@, name@),
            ),
        },
        old(image).packed() && r is Ok ==> final(image).packed(),
        indexes_usable(indexes_of(catalog@, name@)) && sound(old(image).pages(), old(rebuilt)@)
            && exists_in(old(rebuilt)@, name@) && indexes_of(old(rebuilt)@, name@).len() == 0
            && r is Ok && all_used(old(image).pages(), old(rebuilt)@) ==> all_used(
            final(image).pages(),
            final(rebuilt)@,
        ),
        indexes_usable(indexes_of(catalog@, name@)) && sound(old(image).pages(), old(rebuilt)@)
            && exists_in(old(rebuilt)@, name@) && indexes_of(old(rebuilt)@, name@).len() == 0
            && r is Ok && all_packed(old(image).pages(), old(rebuilt)@) ==> all_packed(
            final(image).pages(),
            final(rebuilt)@,
        ),
{
    let ghost first = image.pages();
    let ghost first_list = rebuilt@;
    let ghost good = indexes_usable(indexes_of(catalog@, name@)) && sound(first, first_list)
        && exists_in(first_list, name@) && indexes_of(first_list, name@).len() == 0;
    let indexes = catalog.indexes(name);
    let n: usize = indexes.len();
    let ghost models = index_models(indexes@);
    proof {
        if good {
            reveal(indexed);
            assert(indexed(first, first_list, first, first_list, name@, models, 0));
        }
    }
    for k in 0..n
        invariant
            n == indexes@.len(),
            models == index_models(indexes@),
            models == indexes_of(catalog@, name@),
            image.wf(),
            old(image).packed() ==> image.packed(),
            good && all_used(first, first_list) ==> all_used(image.pages(), rebuilt@),
            good && all_packed(first, first_list) ==> all_packed(image.pages(), rebuilt@),
            first == old(image).pages(),
            first_list == old(rebuilt)@,
            good ==> indexes_usable(models),
            good ==> indexed(
                first,
                first_list,
                image.pages(),
                rebuilt@,
                name@,
                models,
                k as int,
            ),
            good == (indexes_usable(indexes_of(catalog@, name@)) && sound(first, first_list)
                && exists_in(first_list, name@) && indexes_of(first_list, name@).len() == 0),
    {
        proof {
            assert(models[k as int] == indexes@[k as int]@);
        }
        match copy_index(
            rebuilt,
            image,
            name,
            &indexes[k],
            Ghost((first, first_list)),
            Ghost(models),
            Ghost(k as int),
        ) {
            Ok(()) => {},
            Err(e) => {
                assert(good && !image.full() ==> models[k as int].unique && collision_among(
                    e,
                    name@,
                    models[k as int],
                    stored_in(first, first_list, name@),
                ));
                return Err(e);
            },
        }
    }
    Ok(())
}

/// Whether a collection's indexes can all be built again.
pub open spec fn indexes_usable(indexes: Seq<IndexModel>) -> bool {
    &&& distinct_fields(indexes)
    &&& forall|k: int| 0 <= k < indexes.len() ==> index_fits(#[trigger] indexes[k])
}

proof fn lemma_changed_twice(
    a: Map<PageId, Seq<u8>>,
    la: Seq<CollectionModel>,
    b: Map<PageId, Seq<u8>>,
    lb: Seq<CollectionModel>,
    c: Map<PageId, Seq<u8>>,
    lc: Seq<CollectionModel>,
    name: Seq<char>,
)
    requires
        indexes_changed(a, la, b, lb, name, indexes_of(lb, name)),
        indexes_changed(b, lb, c, lc, name, indexes_of(lc, name)),
    ensures
        indexes_changed(a, la, c, lc, name, indexes_of(lc, name)),
{
    assert forall|other: Seq<char>| #[trigger] stored_in(c, lc, other) == stored_in(
        a,
        la,
        other,
    ) by {
        assert(stored_in(b, lb, other) == stored_in(a, la, other));
    }
    assert forall|other: Seq<char>| other != name implies #[trigger] meta_of(lc, other) == meta_of(
        la,
        other,
    ) by {
        assert(meta_of(lb, other) == meta_of(la, other));
    }
    assert forall|other: Seq<char>| other != name implies #[trigger] indexes_of(lc, other)
        == indexes_of(la, other) by {
        assert(indexes_of(lb, other) == indexes_of(la, other));
    }
}

/// What was copied of a collection stays when another is.
proof fn lemma_next(
    pages: Map<PageId, Seq<u8>>,
    list: Seq<CollectionModel>,
    image: Map<PageId, Seq<u8>>,
    rebuilt: Seq<CollectionModel>,
    after: Map<PageId, Seq<u8>>,
    now: Seq<CollectionModel>,
    made: Map<PageId, Seq<u8>>,
    made_list: Seq<CollectionModel>,
    full: Map<PageId, Seq<u8>>,
    full_list: Seq<CollectionModel>,
    name: Seq<char>,
)
    requires
        written(image, rebuilt, made, made_list, name, stored_in(image, rebuilt, name)),
        copied(made, made_list, full, full_list, name, stored_in(pages, list, name)),
        indexed(
            full,
            full_list,
            after,
            now,
            name,
            indexes_of(list, name),
            indexes_of(list, name).len() as int,
        ),
    ensures
        sound(after, now),
        same_collection(pages, list, after, now, name),
        forall|other: Seq<char>|
            other != name && #[trigger] same_collection(pages, list, image, rebuilt, other)
                ==> same_collection(pages, list, after, now, other),
        forall|other: Seq<char>|
            other != name && #[trigger] exists_in(now, other) ==> exists_in(rebuilt, other),
{
    reveal(copied);
    reveal(indexed);
    assert(indexes_of(list, name).take(indexes_of(list, name).len() as int) =~= indexes_of(
        list,
        name,
    ));
    assert(stored_in(after, now, name) == stored_in(full, full_list, name));
    assert forall|other: Seq<char>| other != name implies (#[trigger] exists_in(now, other)
        <==> exists_in(rebuilt, other)) && stored_in(after, now, other) == stored_in(
        image,
        rebuilt,
        other,
    ) && indexes_of(now, other) == indexes_of(rebuilt, other) by {
        assert(meta_of(now, other) == meta_of(full_list, other));
        assert(meta_of(full_list, other) == meta_of(made_list, other));
        assert(meta_of(made_list, other) == meta_of(rebuilt, other));
        assert(stored_in(after, now, other) == stored_in(full, full_list, other));
        assert(stored_in(full, full_list, other) == stored_in(made, made_list, other));
        assert(stored_in(made, made_list, other) == stored_in(image, rebuilt, other));
        assert(indexes_of(now, other) == indexes_of(full_list, other));
        assert(indexes_of(full_list, other) == indexes_of(made_list, other));
        assert(indexes_of(made_list, other) == indexes_of(rebuilt, other));
    }
    assert forall|other: Seq<char>|
        other != name && #[trigger] same_collection(
            pages,
            list,
            image,
            rebuilt,
            other,
        ) implies same_collection(pages, list, after, now, other) by {
        assert(exists_in(now, other));
    }
}

/// A collection whose database is sound has indexes that can be built again.
proof fn lemma_usable(pages: Map<PageId, Seq<u8>>, list: Seq<CollectionModel>, name: Seq<char>)
    requires
        sound(pages, list),
        exists_in(list, name),
        fields_distinct(list),
    ensures
        indexes_usable(indexes_of(list, name)),
        short(name),
{
    lemma_position(list, name);
    let at = position(list, name) as int;
    let own = choose|own: Owners| sound_with(pages, list, own);
    lemma_storable(pages, list, own, at);
    assert(distinct_fields(indexes_of(list, name)));
    assert(fits_catalog(list[at]));
}

/// Why a collection can't be copied.
pub open spec fn rebuild_error(
    e: Error,
    pages: Map<PageId, Seq<u8>>,
    list: Seq<CollectionModel>,
    name: Seq<char>,
) -> bool {
    let held = stored_in(pages, list, name);
    exists_in(list, name) && (is_invalid_input(e) && too_large(held) || duplicate_named(
        e,
        name,
        held,
        indexes_of(list, name),
    ))
}

/// Whether one more collection is in the image, the others as they were.
#[verifier::opaque]
pub open spec fn collection_copied(
    pages: Map<PageId, Seq<u8>>,
    list: Seq<CollectionModel>,
    image: Map<PageId, Seq<u8>>,
    rebuilt: Seq<CollectionModel>,
    after: Map<PageId, Seq<u8>>,
    now: Seq<CollectionModel>,
    name: Seq<char>,
) -> bool {
    &&& sound(after, now)
    &&& same_collection(pages, list, after, now, name)
    &&& forall|other: Seq<char>|
        other != name && #[trigger] same_collection(pages, list, image, rebuilt, other)
            ==> same_collection(pages, list, after, now, other)
    &&& forall|other: Seq<char>|
        other != name && #[trigger] exists_in(now, other) ==> exists_in(rebuilt, other)
}

/// Whether the image holds the first `n` of these collections, and no others.
#[verifier::opaque]
spec fn holds_first(
    pages: Map<PageId, Seq<u8>>,
    list: Seq<CollectionModel>,
    image: Map<PageId, Seq<u8>>,
    rebuilt: Seq<CollectionModel>,
    names: Seq<String>,
    n: int,
) -> bool {
    &&& sound(image, rebuilt)
    &&& forall|j: int|
        0 <= j < n ==> same_collection(pages, list, image, rebuilt, (#[trigger] names[j])@)
    &&& forall|other: Seq<char>| #[trigger]
        exists_in(rebuilt, other) ==> named_among(names.take(n), other)
}

proof fn lemma_holds_more(
    pages: Map<PageId, Seq<u8>>,
    list: Seq<CollectionModel>,
    before: Map<PageId, Seq<u8>>,
    before_list: Seq<CollectionModel>,
    image: Map<PageId, Seq<u8>>,
    rebuilt: Seq<CollectionModel>,
    names: Seq<String>,
    i: int,
)
    requires
        0 <= i < names.len(),
        no_name_twice(names),
        holds_first(pages, list, before, before_list, names, i),
        collection_copied(pages, list, before, before_list, image, rebuilt, names[i]@),
    ensures
        holds_first(pages, list, image, rebuilt, names, i + 1),
{
    reveal(holds_first);
    reveal(collection_copied);
    let name = names[i]@;
    assert forall|j: int| 0 <= j < i + 1 implies same_collection(
        pages,
        list,
        image,
        rebuilt,
        (#[trigger] names[j])@,
    ) by {
        if j < i {
            assert(same_collection(pages, list, before, before_list, names[j]@));
            assert(names[j]@ != name);
        }
    }
    assert forall|other: Seq<char>| #[trigger] exists_in(rebuilt, other) implies named_among(
        names.take(i + 1),
        other,
    ) by {
        let more = names.take(i + 1);
        if other == name {
            assert(more[i]@ == other);
        } else {
            assert(exists_in(before_list, other));
            let earlier = names.take(i);
            let j = choose|j: int| 0 <= j < earlier.len() && (#[trigger] earlier[j])@ == other;
            assert(more[j]@ == other);
        }
    }
}

proof fn lemma_not_yet(
    pages: Map<PageId, Seq<u8>>,
    list: Seq<CollectionModel>,
    image: Map<PageId, Seq<u8>>,
    rebuilt: Seq<CollectionModel>,
    names: Seq<String>,
    i: int,
)
    requires
        0 <= i < names.len(),
        no_name_twice(names),
        holds_first(pages, list, image, rebuilt, names, i),
    ensures
        sound(image, rebuilt),
        !exists_in(rebuilt, names[i]@),
{
    reveal(holds_first);
    if exists_in(rebuilt, names[i]@) {
        let earlier = names.take(i);
        let j = choose|j: int| 0 <= j < earlier.len() && (#[trigger] earlier[j])@ == names[i]@;
        assert(names[j]@ == names[i]@);
    }
}

proof fn lemma_holds_all(
    pages: Map<PageId, Seq<u8>>,
    list: Seq<CollectionModel>,
    image: Map<PageId, Seq<u8>>,
    rebuilt: Seq<CollectionModel>,
    names: Seq<String>,
)
    requires
        holds_first(pages, list, image, rebuilt, names, names.len() as int),
        forall|j: int| 0 <= j < names.len() ==> exists_in(list, (#[trigger] names[j])@),
        forall|j: int| 0 <= j < list.len() ==> named_among(names, (#[trigger] list[j]).name),
    ensures
        sound(image, rebuilt),
        forall|name: Seq<char>| #[trigger] exists_in(rebuilt, name) <==> exists_in(list, name),
        forall|name: Seq<char>|
            exists_in(list, name) ==> #[trigger] same_collection(pages, list, image, rebuilt, name),
{
    reveal(holds_first);
    assert forall|name: Seq<char>| exists_in(list, name) implies #[trigger] same_collection(
        pages,
        list,
        image,
        rebuilt,
        name,
    ) by {
        lemma_position(list, name);
        assert(named_among(names, list[position(list, name) as int].name));
        let j = choose|j: int| 0 <= j < names.len() && (#[trigger] names[j])@ == name;
        assert(same_collection(pages, list, image, rebuilt, names[j]@));
    }
    assert forall|name: Seq<char>| #[trigger] exists_in(rebuilt, name) <==> exists_in(
        list,
        name,
    ) by {
        if exists_in(list, name) {
            assert(same_collection(pages, list, image, rebuilt, name));
        }
        if exists_in(rebuilt, name) {
            let all = names.take(names.len() as int);
            let j = choose|j: int| 0 <= j < all.len() && (#[trigger] all[j])@ == name;
            assert(exists_in(list, names[j]@));
        }
    }
}

/// A database whose pages are all used, none of them twice, and whose unique
/// indexes have no two equal values is consistent, with nothing free.
proof fn lemma_consistent(
    pages: Map<PageId, Seq<u8>>,
    list: Seq<CollectionModel>,
    image: Map<PageId, Seq<u8>>,
    rebuilt: Seq<CollectionModel>,
    count: int,
)
    requires
        count > 0,
        sound(image, rebuilt),
        all_used(image, rebuilt),
        forall|p: PageId| #[trigger] image.dom().contains(p) <==> 0 < p < count,
        forall|name: Seq<char>| #[trigger] exists_in(rebuilt, name) <==> exists_in(list, name),
        forall|name: Seq<char>|
            exists_in(list, name) ==> #[trigger] same_collection(pages, list, image, rebuilt, name),
    ensures
        consistent(image, rebuilt, seq![], count),
{
    let own = choose|own: Owners| sound_with(image, rebuilt, own);
    assert forall|i: int| 0 <= i < rebuilt.len() implies values_unique(
        contents_of(collection_docs(image, #[trigger] rebuilt[i])),
        rebuilt[i].indexes,
    ) by {
        let c = rebuilt[i];
        lemma_position(rebuilt, c.name);
        assert(rebuilt[i].name == c.name);
        assert(exists_in(rebuilt, c.name));
        assert(same_collection(pages, list, image, rebuilt, c.name));
        let at = position(rebuilt, c.name) as int;
        assert(rebuilt[at].name == rebuilt[i].name);
        assert(at == i);
        let held = stored_in(image, rebuilt, c.name);
        assert forall|k: int, a: Seq<u8>, b: Seq<u8>|
            0 <= k < c.indexes.len() && (#[trigger] c.indexes[k]).unique && a != b
                && held.dom().contains(a) && held.dom().contains(b) implies !(
        #[trigger] documents_collide(held[a], held[b], c.indexes[k])) by {
            assert(held_apart(held, indexes_of(rebuilt, c.name)[k]));
        }
    }
    assert forall|p: PageId| 0 < p < count implies chain(image).contains(p) || exists|i: int|
        0 <= i < rebuilt.len() && used_by(image, #[trigger] rebuilt[i], p) by {
        assert(image.dom().contains(p));
        if !chain(image).contains(p) {
            assert(used_in(image, rebuilt, p));
        }
    }
}

/// Copies one collection into the image: its documents, then its indexes.
fn copy_collection<S: PageStore>(
    catalog: &Catalog,
    store: &S,
    name: &str,
    rebuilt: &mut Catalog,
    image: &mut MemoryStore,
) -> (r: Result<(), Error>)
    requires
        store.wf(),
        old(image).wf(),
    ensures
        final(image).wf(),
        sound(store.pages(), catalog@) && fields_distinct(catalog@) && exists_in(catalog@, name@)
            && sound(old(image).pages(), old(rebuilt)@) && !exists_in(old(rebuilt)@, name@)
            ==> match r {
            Ok(()) => collection_copied(
                store.pages(),
                catalog@,
                old(image).pages(),
                old(rebuilt)@,
                final(image).pages(),
                final(rebuilt)@,
                name@,
            ),
            Err(e) => !store.reliable() || final(image).full() || rebuild_error(
                e,
                store.pages(),
                catalog@,
                name@,
            ),
        },
        old(image).packed() && r is Ok ==> final(image).packed(),
        sound(store.pages(), catalog@) && fields_distinct(catalog@) && exists_in(catalog@, name@)
            && sound(old(image).pages(), old(rebuilt)@) && !exists_in(old(rebuilt)@, name@)
            && r is Ok && all_used(old(image).pages(), old(rebuilt)@) ==> all_used(
            final(image).pages(),
            final(rebuilt)@,
        ),
        sound(store.pages(), catalog@) && fields_distinct(catalog@) && exists_in(catalog@, name@)
            && sound(old(image).pages(), old(rebuilt)@) && !exists_in(old(rebuilt)@, name@)
            && r is Ok && all_packed(old(image).pages(), old(rebuilt)@) ==> all_packed(
            final(image).pages(),
            final(rebuilt)@,
        ),
{
    let ghost pages = store.pages();
    let ghost list = catalog@;
    let ghost before = image.pages();
    let ghost before_list = rebuilt@;
    let ghost good = sound(pages, list) && fields_distinct(list) && exists_in(list, name@)
        && sound(before, before_list) && !exists_in(before_list, name@);
    proof {
        if good {
            lemma_usable(pages, list, name@);
        }
    }
    match get_or_create_meta(rebuilt, image, name) {
        Ok(_) => {},
        Err(e) => return Err(e),
    }
    let ghost made = image.pages();
    let ghost made_list = rebuilt@;
    proof {
        if good {
            reveal(copied);
            assert(copied(made, made_list, made, made_list, name@, Map::empty()));
        }
    }
    match copy_documents(catalog, store, name, rebuilt, image) {
        Ok(()) => {},
        Err(e) => return Err(e),
    }
    let ghost full = image.pages();
    let ghost full_list = rebuilt@;
    proof {
        if good {
            reveal(copied);
        }
    }
    match copy_indexes(catalog, name, rebuilt, image) {
        Ok(()) => {
            proof {
                if good {
                    lemma_next(
                        pages,
                        list,
                        before,
                        before_list,
                        image.pages(),
                        rebuilt@,
                        made,
                        made_list,
                        full,
                        full_list,
                        name@,
                    );
                    reveal(collection_copied);
                }
            }
            Ok(())
        },
        Err(e) => Err(e),
    }
}

/// Copies every collection, in name order, into a new image: its documents in
/// id order (so data pages fill one after another and the primary index grows
/// at its end), then each index from its keys, sorted. Returns the image's
/// catalog. So no page of documents but a collection's last has room for the
/// document that comes next, and every leaf of an index but its last is full.
/// A unique index with a duplicate isn't copied into another one.
pub fn rebuild<S: PageStore>(catalog: &Catalog, store: &S, image: &mut MemoryStore) -> (r: Result<
    Catalog,
    Error,
>)
    requires
        store.wf(),
        old(image).wf(),
        old(image).fresh(),
        old(image).pages() == Map::<PageId, Seq<u8>>::empty(),
    ensures
        final(image).wf(),
        sound(store.pages(), catalog@) && fields_distinct(catalog@) ==> match r {
            Ok(rebuilt) => {
                &&& sound(final(image).pages(), rebuilt@)
                &&& forall|name: Seq<char>| #[trigger]
                    exists_in(rebuilt@, name) <==> exists_in(catalog@, name)
                &&& forall|name: Seq<char>|
                    exists_in(catalog@, name) ==> #[trigger] same_collection(
                        store.pages(),
                        catalog@,
                        final(image).pages(),
                        rebuilt@,
                        name,
                    )
                &&& consistent(
                    final(image).pages(),
                    rebuilt@,
                    seq![],
                    final(image).count() as int,
                )
                &&& forall|i: int|
                    0 <= i < rebuilt@.len() ==> collection_packed(
                        final(image).pages(),
                        #[trigger] rebuilt@[i],
                    ) && collection_leaves_full(final(image).pages(), rebuilt@[i])
            },
            Err(e) => !store.reliable() || final(image).full() || exists|name: Seq<char>| #[trigger]
                rebuild_error(e, store.pages(), catalog@, name),
        },
{
    let ghost pages = store.pages();
    let ghost list = catalog@;
    let ghost good = sound(pages, list) && fields_distinct(list);
    proof {
        image.lemma_fresh();
    }
    let mut rebuilt = match Catalog::load(image) {
        Ok(rebuilt) => rebuilt,
        Err(e) => return Err(Error::Io(e)),
    };
    proof {
        new_database_is_sound(image.pages());
        assert(chain(image.pages())[0] == CATALOG_PAGE_ID);
        assert(all_used(image.pages(), rebuilt@));
        reveal(all_packed);
        assert(all_packed(image.pages(), rebuilt@));
    }
    let names = sorted_names(catalog);
    let n: usize = names.len();
    proof {
        if good {
            reveal(holds_first);
            assert(holds_first(pages, list, image.pages(), rebuilt@, names@, 0));
        }
    }
    for i in 0..n
        invariant
            n == names@.len(),
            store.wf(),
            image.wf(),
            pages == store.pages(),
            list == catalog@,
            good == (sound(pages, list) && fields_distinct(list)),
            good ==> no_name_twice(names@),
            forall|j: int| 0 <= j < n ==> exists_in(list, (#[trigger] names@[j])@),
            good ==> holds_first(pages, list, image.pages(), rebuilt@, names@, i as int),
            image.packed(),
            good ==> all_used(image.pages(), rebuilt@),
            good ==> all_packed(image.pages(), rebuilt@),
    {
        let ghost before = image.pages();
        let ghost before_list = rebuilt@;
        proof {
            if good {
                lemma_not_yet(pages, list, before, before_list, names@, i as int);
            }
        }
        match copy_collection(catalog, store, names[i].as_str(), &mut rebuilt, image) {
            Ok(()) => {
                proof {
                    if good {
                        lemma_holds_more(
                            pages,
                            list,
                            before,
                            before_list,
                            image.pages(),
                            rebuilt@,
                            names@,
                            i as int,
                        );
                    }
                }
            },
            Err(e) => return Err(e),
        }
    }
    proof {
        if good {
            lemma_holds_all(pages, list, image.pages(), rebuilt@, names@);
            image.lemma_packed();
            lemma_consistent(pages, list, image.pages(), rebuilt@, image.count() as int);
            reveal(all_packed);
            assert forall|i: int| 0 <= i < rebuilt@.len() implies collection_packed(
                image.pages(),
                #[trigger] rebuilt@[i],
            ) && collection_leaves_full(image.pages(), rebuilt@[i]) by {
                packed_leaves_are_full(image.pages(), rebuilt@[i]);
            }
        }
    }
    Ok(rebuilt)
}

} // verus!

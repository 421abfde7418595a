//! What can be done with one collection, on a catalog and a store that the
//! caller has to itself.

use super::apply::{
    apply_write_op, insert_refused, op_outcome, op_refused, stored_in, update_refused, with_id,
    with_id_of, written,
};
use super::find::{
    are_all_matches, are_matches, find_in, is_among, is_answer, lemma_readable, read_matches,
};
use super::maintain::copy_text;
use super::state::{collection_docs, entries_at, sound, sound_with, Owners};
use crate::catalog::entry::{clone_strings, texts};
use crate::catalog::{exists_in, indexes_of, lemma_position, position, Catalog, CollectionModel};
use crate::data::get_record;
use crate::document::{valid, within, DocId, DocModel, Document, MAX_NESTING};
use crate::encoding::{encode_document, encoded};
use crate::error::Error;
use crate::filter::{found_models, meets_all, Filter, FilterModel, Found};
use crate::index::btree::BTreeIndex;
use crate::index::entries::find;
use crate::index::key;
use crate::index::Index;
use crate::storage::{PageId, PageStore};
use crate::txn::WriteOp;
use vstd::prelude::*;

verus! {

/// What an index is made on or dropped by: one field, `"age"`,
/// `"address.city"` or `"tags[*]"`, or several, for a compound index.
pub trait IndexFields: Sized {
    /// The fields' names.
    spec fn names(&self) -> Seq<Seq<char>>;

    fn into_fields(self) -> (r: Vec<String>)
        ensures
            texts(r@) == self.names(),
    ;
}

impl IndexFields for &str {
    open spec fn names(&self) -> Seq<Seq<char>> {
        seq![self@]
    }

    fn into_fields(self) -> (r: Vec<String>) {
        let mut fields: Vec<String> = Vec::new();
        fields.push(copy_text(self));
        assert(texts(fields@) =~= seq![self@]);
        fields
    }
}

impl IndexFields for String {
    open spec fn names(&self) -> Seq<Seq<char>> {
        seq![self@]
    }

    fn into_fields(self) -> (r: Vec<String>) {
        let ghost name = self@;
        let mut fields: Vec<String> = Vec::new();
        fields.push(self);
        assert(texts(fields@) =~= seq![name]);
        fields
    }
}

impl IndexFields for &String {
    open spec fn names(&self) -> Seq<Seq<char>> {
        seq![self@]
    }

    fn into_fields(self) -> (r: Vec<String>) {
        let mut fields: Vec<String> = Vec::new();
        fields.push(copy_text(self.as_str()));
        assert(texts(fields@) =~= seq![self@]);
        fields
    }
}

/// The texts behind borrowed ones.
pub open spec fn str_texts(list: Seq<&str>) -> Seq<Seq<char>> {
    Seq::new(list.len(), |i: int| list[i]@)
}

fn own_all(list: &[&str]) -> (r: Vec<String>)
    ensures
        texts(r@) == str_texts(list@),
{
    let mut fields: Vec<String> = Vec::new();
    let n: usize = list.len();
    for i in 0..n
        invariant
            n == list@.len(),
            fields@.len() == i,
            forall|j: int| 0 <= j < i ==> (#[trigger] fields@[j])@ == list@[j]@,
    {
        let one: &str = list[i];
        fields.push(copy_text(one));
    }
    assert(texts(fields@) =~= str_texts(list@));
    fields
}

impl<const N: usize> IndexFields for [&str; N] {
    open spec fn names(&self) -> Seq<Seq<char>> {
        str_texts(self@)
    }

    fn into_fields(self) -> (r: Vec<String>) {
        own_all(self.as_slice())
    }
}

impl IndexFields for &[&str] {
    open spec fn names(&self) -> Seq<Seq<char>> {
        str_texts(self@)
    }

    fn into_fields(self) -> (r: Vec<String>) {
        own_all(self)
    }
}

impl IndexFields for Vec<String> {
    open spec fn names(&self) -> Seq<Seq<char>> {
        texts(self@)
    }

    fn into_fields(self) -> (r: Vec<String>) {
        self
    }
}

impl IndexFields for &[String] {
    open spec fn names(&self) -> Seq<Seq<char>> {
        texts(self@)
    }

    fn into_fields(self) -> (r: Vec<String>) {
        clone_strings(self)
    }
}

/// What `upsert` did, and to which document.
#[derive(Debug, Clone, Copy, PartialEq, Eq)]
pub enum Upserted {
    /// Nothing matched; the document was inserted with this new id.
    Inserted(DocId),
    /// One document matched and was replaced; it keeps its id.
    Updated(DocId),
}

impl Upserted {
    pub fn id(&self) -> (id: DocId)
        ensures
            id == (match *self {
                Upserted::Inserted(id) => id,
                Upserted::Updated(id) => id,
            }),
    {
        match self {
            Upserted::Inserted(id) => *id,
            Upserted::Updated(id) => *id,
        }
    }
}

/// The document with this id, if the collection has it.
pub fn get_document<S: PageStore>(
    catalog: &Catalog,
    store: &S,
    collection: &str,
    id: DocId,
) -> (r: Result<Option<Document>, Error>)
    requires
        store.wf(),
    ensures
        sound(store.pages(), catalog@) ==> ({
            let held = stored_in(store.pages(), catalog@, collection@);
            match r {
                Ok(Some(doc)) => held.dom().contains(id@) && held[id@] == doc@,
                Ok(None) => !held.dom().contains(id@),
                Err(_) => !store.reliable(),
            }
        }),
{
    let ghost pages = store.pages();
    let ghost list = catalog@;
    let ghost at = position(list, collection@) as int;
    proof {
        lemma_position(list, collection@);
        if sound(pages, list) && exists_in(list, collection@) {
            let own = choose|own: Owners| sound_with(pages, list, own);
            lemma_readable(pages, list, own, at);
            let primary = entries_at(pages, list[at].meta.index_root);
            if find(primary, id@) is Some {
                super::records::lemma_found(primary, id@);
            } else if collection_docs(pages, list[at]).dom().contains(id@) {
                let loc = collection_docs(pages, list[at])[id@].0;
                super::records::lemma_contained(primary, (id@, loc));
            }
        }
    }
    let meta = match catalog.get(collection) {
        Some(meta) => meta,
        None => return Ok(None),
    };
    let key = key::primary(id);
    let loc = match BTreeIndex::new(meta.index_root).lookup(store, key.as_slice()) {
        Ok(Some(loc)) => loc,
        Ok(None) => return Ok(None),
        Err(e) => return Err(Error::Io(e)),
    };
    match get_record(store, loc) {
        Ok((_, doc)) => Ok(Some(doc)),
        Err(e) => Err(Error::Io(e)),
    }
}

/// How many stored documents meet a filter's conditions: as many as a list of
/// all of them, none twice, has.
pub open spec fn match_count(
    held: Map<Seq<u8>, DocModel>,
    filter: FilterModel,
    n: int,
) -> bool {
    exists|found: Seq<Found>|
        found.len() == n && are_matches(held, filter, found) && #[trigger] are_all_matches(
            held,
            filter,
            found,
        )
}

/// How many documents match a filter's conditions, at most its `limit`; the
/// sort doesn't matter.
pub fn count<S: PageStore>(catalog: &Catalog, store: &S, collection: &str, filter: &Filter) -> (r:
    Result<usize, Error>)
    requires
        store.wf(),
    ensures
        sound(store.pages(), catalog@) ==> match r {
            Ok(n) => exists|all: int|
                n == limited(all, filter.limit) && #[trigger] match_count(
                    stored_in(store.pages(), catalog@, collection@),
                    filter@,
                    all,
                ),
            Err(_) => !store.reliable(),
        },
{
    let found = match read_matches(catalog, store, collection, filter) {
        Ok(found) => found,
        Err(e) => return Err(Error::Io(e)),
    };
    let all: usize = found.len();
    proof {
        if sound(store.pages(), catalog@) {
            let held = stored_in(store.pages(), catalog@, collection@);
            assert(are_all_matches(held, filter@, found_models(found@)));
            assert(match_count(held, filter@, all as int));
        }
    }
    match filter.limit {
        Some(limit) => if limit < all {
            Ok(limit)
        } else {
            Ok(all)
        },
        None => Ok(all),
    }
}

/// A number, at most the limit.
pub open spec fn limited(n: int, limit: Option<usize>) -> int {
    match limit {
        Some(limit) => if limit < n {
            limit as int
        } else {
            n
        },
        None => n,
    }
}

/// A filter that stops at its first match.
pub fn first_only(filter: Filter) -> (r: Filter)
    ensures
        r@.conditions == filter@.conditions,
        r@.sort == filter@.sort,
        r.limit == (match filter.limit {
            Some(limit) => Some(
                if limit < 1 {
                    limit
                } else {
                    1usize
                },
            ),
            None => Some(1usize),
        }),
{
    let limit: usize = match filter.limit {
        Some(limit) => if limit < 1 {
            limit
        } else {
            1
        },
        None => 1,
    };
    Filter { conditions: filter.conditions, sort: filter.sort, limit: Some(limit) }
}

/// A single change's outcome as an answer: `false` if the document wasn't
/// there.
pub fn found(result: Result<(), Error>) -> (r: Result<bool, Error>)
    ensures
        r == (match result {
            Ok(()) => Ok::<bool, Error>(true),
            Err(Error::NotFound { .. }) => Ok::<bool, Error>(false),
            Err(e) => Err::<bool, Error>(e),
        }),
{
    match result {
        Ok(()) => Ok(true),
        Err(Error::NotFound { collection, id }) => Ok(false),
        Err(e) => Err(e),
    }
}

/// What comes of an upsert on a sound database.
pub open spec fn upsert_outcome(
    before: Map<PageId, Seq<u8>>,
    list: Seq<CollectionModel>,
    after: Map<PageId, Seq<u8>>,
    now: Seq<CollectionModel>,
    name: Seq<char>,
    filter: FilterModel,
    id_if_new: DocId,
    doc: DocModel,
    r: Result<Upserted, Error>,
    broken: bool,
) -> bool {
    let held = stored_in(before, list, name);
    match r {
        Ok(Upserted::Inserted(id)) => {
            &&& id == id_if_new
            &&& match_count(held, filter, 0)
            &&& within(with_id_of(doc, id@), MAX_NESTING as int)
            &&& written(before, list, after, now, name, held.insert(id@, with_id_of(doc, id@)))
        },
        Ok(Upserted::Updated(id)) => {
            &&& match_count(held, filter, 1)
            &&& within(with_id_of(doc, id@), MAX_NESTING as int)
            &&& held.dom().contains(id@)
            &&& meets_all(filter.conditions, held[id@])
            &&& written(before, list, after, now, name, held.insert(id@, with_id_of(doc, id@)))
        },
        Err(Error::MultipleMatches { collection, count }) => broken || (collection@ == name && count
            > 1 && match_count(held, filter, count as int)),
        Err(e) => {
            ||| broken
            ||| match_count(held, filter, 0) && insert_refused(
                e,
                name,
                exists_in(list, name),
                held,
                indexes_of(list, name),
                id_if_new@,
                with_id_of(doc, id_if_new@),
                broken,
            )
            ||| match_count(held, filter, 1) && exists|id: Seq<u8>|
                held.dom().contains(id) && meets_all(filter.conditions, #[trigger] held[id])
                    && update_refused(
                    e,
                    name,
                    held,
                    indexes_of(list, name),
                    id,
                    with_id_of(doc, id),
                    broken,
                )
        },
    }
}

/// Replaces the one document matching a filter's conditions, keeping its id,
/// or inserts `doc` with a new id if none matches; `Error::MultipleMatches`
/// if several do. Sort and limit don't matter. After an error the store may
/// be half changed: the caller rolls it back.
pub fn upsert<S: PageStore>(
    catalog: &mut Catalog,
    store: &mut S,
    collection: &str,
    filter: &Filter,
    id_if_new: DocId,
    doc: Document,
) -> (r: Result<Upserted, Error>)
    requires
        old(store).wf(),
    ensures
        final(store).wf(),
        final(store).reliable() == old(store).reliable(),
        sound(old(store).pages(), old(catalog)@) && valid(doc@) ==> upsert_outcome(
            old(store).pages(),
            old(catalog)@,
            final(store).pages(),
            final(catalog)@,
            collection@,
            filter@,
            id_if_new,
            doc@,
            r,
            !old(store).reliable() || final(store).full(),
        ),
{
    let ghost pages = store.pages();
    let ghost list = catalog@;
    let ghost good = sound(pages, list) && valid(doc@);
    let ghost held = stored_in(pages, list, collection@);
    let name = copy_text(collection);
    let matches = match read_matches(catalog, store, collection, filter) {
        Ok(matches) => matches,
        Err(e) => return Err(Error::Io(e)),
    };
    let ghost all = found_models(matches@);
    let n: usize = matches.len();
    proof {
        if good {
            assert(are_all_matches(held, filter@, all));
            assert(match_count(held, filter@, n as int));
        }
    }
    if n > 1 {
        return Err(Error::MultipleMatches { collection: name, count: n });
    }
    let (op, outcome): (WriteOp, Upserted) = if n == 0 {
        (
            WriteOp::Insert(name, id_if_new, doc),
            Upserted::Inserted(id_if_new),
        )
    } else {
        let id: DocId = matches[0].0;
        assert(all[0] == (matches@[0].0@, matches@[0].1@));
        (WriteOp::Update(name, id, doc), Upserted::Updated(id))
    };
    match apply_write_op(catalog, store, &op) {
        Ok(()) => Ok(outcome),
        Err(e) => {
            proof {
                if good {
                    assert(op_refused(
                        e,
                        op,
                        exists_in(list, collection@),
                        held,
                        indexes_of(list, collection@),
                        !store.reliable() || store.full(),
                    ));
                    if n > 0 {
                        assert(meets_all(filter@.conditions, held[all[0].0]));
                    }
                }
            }
            Err(e)
        },
    }
}

/// The outcome of a write that also says something.
pub open spec fn as_write(r: Result<bool, Error>) -> Result<(), Error> {
    match r {
        Ok(_) => Ok(()),
        Err(e) => Err(e),
    }
}

/// Writes what became of a document, if it became another; says whether it
/// did. An `_id` can't be changed: whatever is there, the document keeps its
/// own. Documents are compared as they are stored, so one with a NaN counts
/// as unchanged if nothing changed.
pub fn write_if_changed<S: PageStore>(
    catalog: &mut Catalog,
    store: &mut S,
    collection: &str,
    id: DocId,
    old_doc: &Document,
    new_doc: Document,
) -> (r: Result<bool, Error>)
    requires
        old(store).wf(),
    ensures
        final(store).wf(),
        final(store).reliable() == old(store).reliable(),
        encoded(with_id_of(new_doc@, id@)) == encoded(old_doc@) ==> r == Ok::<bool, Error>(false)
            && final(catalog)@ == old(catalog)@ && final(store).pages() == old(store).pages(),
        encoded(with_id_of(new_doc@, id@)) != encoded(old_doc@) && sound(
            old(store).pages(),
            old(catalog)@,
        ) && valid(with_id_of(new_doc@, id@)) ==> exists|op: WriteOp|
            #[trigger] op.name() == collection@ && (op matches WriteOp::Update(_, i, doc) && i == id
                && doc@ == with_id_of(new_doc@, id@)) && op_outcome(
                op,
                old(store).pages(),
                old(catalog)@,
                final(store).pages(),
                final(catalog)@,
                as_write(r),
                !old(store).reliable() || final(store).full(),
            ) && (r matches Ok(changed) ==> changed),
{
    let doc = with_id(new_doc, id);
    let before = encode_document(old_doc);
    let after = encode_document(&doc);
    if crate::bytes::bytes_equal(before.as_slice(), after.as_slice()) {
        return Ok(false);
    }
    let op = WriteOp::Update(copy_text(collection), id, doc);
    assert(op.name() == collection@);
    match apply_write_op(catalog, store, &op) {
        Ok(()) => Ok(true),
        Err(e) => Err(e),
    }
}

/// The documents without those found.
pub open spec fn without_found(held: Map<Seq<u8>, DocModel>, found: Seq<Found>) -> Map<
    Seq<u8>,
    DocModel,
> {
    held.remove_keys(Set::new(|id: Seq<u8>| is_among(found, id)))
}

/// Whether the first `i` of the documents found were deleted.
#[verifier::opaque]
pub open spec fn deleted(
    before: Map<PageId, Seq<u8>>,
    list: Seq<CollectionModel>,
    pages: Map<PageId, Seq<u8>>,
    now: Seq<CollectionModel>,
    name: Seq<char>,
    found: Seq<Found>,
    i: int,
) -> bool {
    if i == 0 {
        now == list && pages == before
    } else {
        written(
            before,
            list,
            pages,
            now,
            name,
            without_found(stored_in(before, list, name), found.take(i)),
        )
    }
}

/// `is_answer`, as one fact.
#[verifier::opaque]
pub open spec fn the_answer(
    held: Map<Seq<u8>, DocModel>,
    filter: FilterModel,
    found: Seq<Found>,
) -> bool {
    is_answer(held, filter, found)
}

/// One more document is without those found.
proof fn lemma_without_one_more(held: Map<Seq<u8>, DocModel>, all: Seq<Found>, i: int)
    requires
        0 <= i < all.len(),
    ensures
        without_found(held, all.take(i)).remove(all[i].0) == without_found(held, all.take(i + 1)),
{
    let left = without_found(held, all.take(i));
    let next = without_found(held, all.take(i + 1));
    assert forall|id: Seq<u8>|
        is_among(all.take(i + 1), id) <==> is_among(all.take(i), id) || id == all[i].0 by {
        if is_among(all.take(i + 1), id) {
            let j = choose|j: int| 0 <= j < i + 1 && (#[trigger] all.take(i + 1)[j]).0 == id;
            if j < i {
                assert(all.take(i)[j].0 == id);
            }
        }
        if is_among(all.take(i), id) {
            let j = choose|j: int| 0 <= j < i && (#[trigger] all.take(i)[j]).0 == id;
            assert(all.take(i + 1)[j].0 == id);
        }
        if id == all[i].0 {
            assert(all.take(i + 1)[i].0 == id);
        }
    }
    assert(left.remove(all[i].0) =~= next);
}

/// Deletes one of the documents found.
fn delete_one<S: PageStore>(
    catalog: &mut Catalog,
    store: &mut S,
    collection: &str,
    id: DocId,
    filter: Ghost<FilterModel>,
    start: Ghost<(Map<PageId, Seq<u8>>, Seq<CollectionModel>)>,
    all: Ghost<Seq<Found>>,
    i: Ghost<int>,
) -> (r: Result<(), Error>)
    requires
        old(store).wf(),
    ensures
        final(store).wf(),
        final(store).reliable() == old(store).reliable(),
        sound(start@.0, start@.1) && the_answer(
            stored_in(start@.0, start@.1, collection@),
            filter@,
            all@,
        ) && 0 <= i@ < all@.len() && all@[i@].0 == id@ && deleted(
            start@.0,
            start@.1,
            old(store).pages(),
            old(catalog)@,
            collection@,
            all@,
            i@,
        ) ==> match r {
            Ok(()) => deleted(
                start@.0,
                start@.1,
                final(store).pages(),
                final(catalog)@,
                collection@,
                all@,
                i@ + 1,
            ),
            Err(_) => !old(store).reliable() || final(store).full(),
        },
{
    let ghost pages = store.pages();
    let ghost now = catalog@;
    let ghost held = stored_in(start@.0, start@.1, collection@);
    let ghost left = without_found(held, all@.take(i@));
    let ghost good = sound(start@.0, start@.1) && the_answer(held, filter@, all@) && 0 <= i@
        < all@.len() && all@[i@].0 == id@ && deleted(
        start@.0,
        start@.1,
        pages,
        now,
        collection@,
        all@,
        i@,
    );
    let op = WriteOp::Delete(copy_text(collection), id);
    proof {
        if good {
            reveal(deleted);
            reveal(the_answer);
            if i@ == 0 {
                assert(left =~= held);
            }
            assert(!is_among(all@.take(i@), all@[i@].0)) by {
                if is_among(all@.take(i@), all@[i@].0) {
                    let j = choose|j: int|
                        0 <= j < i@ && (#[trigger] all@.take(i@)[j]).0 == all@[i@].0;
                    assert(all@[j].0 != all@[i@].0);
                }
            }
            assert(left.dom().contains(all@[i@].0));
            lemma_without_one_more(held, all@, i@);
        }
    }
    match apply_write_op(catalog, store, &op) {
        Ok(()) => {
            proof {
                if good && i@ > 0 {
                    super::apply::lemma_written_twice(
                        start@.0,
                        start@.1,
                        pages,
                        now,
                        store.pages(),
                        catalog@,
                        collection@,
                        left,
                        without_found(held, all@.take(i@ + 1)),
                    );
                }
            }
            Ok(())
        },
        Err(e) => Err(e),
    }
}

/// Deletes exactly the documents that a filter finds, sort and limit included,
/// and says how many. A collection that doesn't exist has nothing to delete
/// and isn't made. After an error the store may be half changed: the caller
/// rolls it back.
pub fn delete_many<S: PageStore>(
    catalog: &mut Catalog,
    store: &mut S,
    collection: &str,
    filter: &Filter,
) -> (r: Result<usize, Error>)
    requires
        old(store).wf(),
    ensures
        final(store).wf(),
        final(store).reliable() == old(store).reliable(),
        sound(old(store).pages(), old(catalog)@) ==> match r {
            Ok(n) => exists|gone: Seq<Found>|
                gone.len() == n && #[trigger] is_answer(
                    stored_in(old(store).pages(), old(catalog)@, collection@),
                    filter@,
                    gone,
                ) && if n == 0 {
                    final(catalog)@ == old(catalog)@ && final(store).pages() == old(store).pages()
                } else {
                    written(
                        old(store).pages(),
                        old(catalog)@,
                        final(store).pages(),
                        final(catalog)@,
                        collection@,
                        without_found(
                            stored_in(old(store).pages(), old(catalog)@, collection@),
                            gone,
                        ),
                    )
                },
            Err(_) => !old(store).reliable() || final(store).full(),
        },
{
    let ghost before = store.pages();
    let ghost list = catalog@;
    let ghost good = sound(before, list);
    let ghost held = stored_in(before, list, collection@);
    let doomed = match find_in(catalog, store, collection, filter) {
        Ok(doomed) => doomed,
        Err(e) => return Err(e),
    };
    let ghost all = found_models(doomed@);
    let n: usize = doomed.len();
    proof {
        reveal(deleted);
        reveal(the_answer);
    }
    for i in 0..n
        invariant
            n == doomed@.len(),
            all == found_models(doomed@),
            store.wf(),
            store.reliable() == old(store).reliable(),
            before == old(store).pages(),
            list == old(catalog)@,
            held == stored_in(before, list, collection@),
            good == sound(before, list),
            good ==> the_answer(held, filter@, all),
            good ==> deleted(
                before,
                list,
                store.pages(),
                catalog@,
                collection@,
                all,
                i as int,
            ),
    {
        assert(all[i as int] == (doomed@[i as int].0@, doomed@[i as int].1@));
        match delete_one(
            catalog,
            store,
            collection,
            doomed[i].0,
            Ghost(filter@),
            Ghost((before, list)),
            Ghost(all),
            Ghost(i as int),
        ) {
            Ok(()) => {},
            Err(e) => return Err(e),
        }
    }
    proof {
        if good {
            reveal(deleted);
            reveal(the_answer);
            assert(all.take(n as int) =~= all);
            assert(is_answer(held, filter@, all));
        }
    }
    Ok(n)
}

} // verus!

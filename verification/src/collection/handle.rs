//! Asking a collection for one document, and for its indexes.

use super::api::{first_only, IndexFields};
use super::apply::stored_in;
use super::fields::{check_fields, fields_usable};
use super::find::{find_in, is_answer};
use super::indexing::{build_error, build_index, index_built, index_with};
use super::state::sound;
use crate::catalog::entry::{index_name, texts, IndexModel};
use crate::catalog::{
    index_models, index_position, indexes_of, is_invalid_input, Catalog, IndexMeta, IndexOptions,
};
use crate::document::{DocId, Document};
use crate::error::Error;
use crate::filter::{found_models, Filter, FilterModel, Found};
use crate::storage::{PageId, PageStore};
use vstd::prelude::*;

verus! {

/// A filter that stops at its first match, unless it stops before.
pub open spec fn first_of(filter: FilterModel) -> FilterModel {
    FilterModel {
        conditions: filter.conditions,
        sort: filter.sort,
        limit: match filter.limit {
            Some(limit) => Some(
                if limit < 1 {
                    limit
                } else {
                    1
                },
            ),
            None => Some(1),
        },
    }
}

/// The first match of a filter, with a sort the first in that order.
pub fn find_one<S: PageStore>(
    catalog: &Catalog,
    store: &S,
    collection: &str,
    filter: Filter,
) -> (r: Result<Option<(DocId, Document)>, Error>)
    requires
        store.wf(),
    ensures
        sound(store.pages(), catalog@) ==> ({
            let held = stored_in(store.pages(), catalog@, collection@);
            match r {
                Ok(Some(found)) => is_answer(
                    held,
                    first_of(filter@),
                    seq![(found.0@, found.1@)],
                ),
                Ok(None) => is_answer(held, first_of(filter@), Seq::<Found>::empty()),
                Err(_) => !store.reliable(),
            }
        }),
{
    let first = first_only(filter);
    assert(first@ == first_of(filter@));
    match find_in(catalog, store, collection, &first) {
        Ok(mut found) => {
            let ghost all = found_models(found@);
            if found.len() == 0 {
                assert(all =~= Seq::<Found>::empty());
                return Ok(None);
            }
            let one = found.remove(0);
            proof {
                if sound(store.pages(), catalog@) {
                    assert(all =~= seq![(one.0@, one.1@)]);
                }
            }
            Ok(Some(one))
        },
        Err(e) => Err(e),
    }
}

/// Makes sure there is an index on these fields with these options: `true` if
/// it was made, from every document in the collection, `false` if it was
/// there. Fields that no index can be on are refused, and so is an index on
/// the same fields with other options.
pub fn ensure_index_with<S: PageStore, F: IndexFields>(
    catalog: &mut Catalog,
    store: &mut S,
    collection: &str,
    fields: F,
    options: IndexOptions,
) -> (r: Result<bool, Error>)
    requires
        old(store).wf(),
    ensures
        final(store).wf(),
        final(store).reliable() == old(store).reliable(),
        ({
            let indexes = indexes_of(old(catalog)@, collection@);
            let k = index_position(indexes, fields.names()) as int;
            if !fields_usable(fields.names()) {
                &&& r matches Err(e) && is_invalid_input(e)
                &&& final(catalog)@ == old(catalog)@
                &&& final(store).pages() == old(store).pages()
            } else if k < indexes.len() {
                &&& final(catalog)@ == old(catalog)@
                &&& final(store).pages() == old(store).pages()
                &&& match r {
                    Ok(made) => !made && indexes[k].unique == options.unique && indexes[k].sparse
                        == options.sparse,
                    Err(e) => is_invalid_input(e) && (indexes[k].unique != options.unique
                        || indexes[k].sparse != options.sparse),
                }
            } else {
                sound(old(store).pages(), old(catalog)@) ==> match r {
                    Ok(made) => made && exists|root: PageId|
                        #[trigger] index_built(
                            old(store).pages(),
                            old(catalog)@,
                            final(store).pages(),
                            final(catalog)@,
                            collection@,
                            index_with(fields.names(), root, options),
                        ),
                    Err(e) => build_error(
                        e,
                        old(catalog)@,
                        collection@,
                        stored_in(old(store).pages(), old(catalog)@, collection@),
                        fields.names(),
                        options,
                        !old(store).reliable() || final(store).full(),
                    ),
                }
            }
        }),
{
    let list = fields.into_fields();
    match check_fields(list.as_slice()) {
        Ok(()) => build_index(catalog, store, collection, list.as_slice(), options),
        Err(e) => Err(e),
    }
}

/// The names of the unique indexes among these.
pub open spec fn unique_names(indexes: Seq<IndexModel>) -> Seq<Seq<char>>
    decreases indexes.len(),
{
    if indexes.len() == 0 {
        seq![]
    } else if indexes.last().unique {
        unique_names(indexes.drop_last()).push(index_name(indexes.last().fields))
    } else {
        unique_names(indexes.drop_last())
    }
}

/// The names of the sparse indexes among these.
pub open spec fn sparse_names(indexes: Seq<IndexModel>) -> Seq<Seq<char>>
    decreases indexes.len(),
{
    if indexes.len() == 0 {
        seq![]
    } else if indexes.last().sparse {
        sparse_names(indexes.drop_last()).push(index_name(indexes.last().fields))
    } else {
        sparse_names(indexes.drop_last())
    }
}

/// A collection's unique indexes, by name.
pub fn unique_indexes(catalog: &Catalog, collection: &str) -> (r: Vec<String>)
    ensures
        texts(r@) == unique_names(indexes_of(catalog@, collection@)),
{
    let indexes: &[IndexMeta] = catalog.indexes(collection);
    let ghost all = index_models(indexes@);
    let n: usize = indexes.len();
    let mut names: Vec<String> = Vec::new();
    assert(texts(names@) =~= unique_names(all.take(0)));
    for i in 0..n
        invariant
            n == indexes@.len(),
            all == index_models(indexes@),
            texts(names@) == unique_names(all.take(i as int)),
    {
        let ghost before = names@;
        if indexes[i].unique {
            names.push(indexes[i].name());
            assert(texts(names@) =~= texts(before).push(names@.last()@));
        }
        proof {
            let more = all.take(i + 1);
            assert(more.drop_last() =~= all.take(i as int));
            assert(more.last() == indexes@[i as int]@);
        }
    }
    assert(all.take(n as int) =~= all);
    names
}

/// A collection's sparse indexes, by name.
pub fn sparse_indexes(catalog: &Catalog, collection: &str) -> (r: Vec<String>)
    ensures
        texts(r@) == sparse_names(indexes_of(catalog@, collection@)),
{
    let indexes: &[IndexMeta] = catalog.indexes(collection);
    let ghost all = index_models(indexes@);
    let n: usize = indexes.len();
    let mut names: Vec<String> = Vec::new();
    assert(texts(names@) =~= sparse_names(all.take(0)));
    for i in 0..n
        invariant
            n == indexes@.len(),
            all == index_models(indexes@),
            texts(names@) == sparse_names(all.take(i as int)),
    {
        let ghost before = names@;
        if indexes[i].sparse {
            names.push(indexes[i].name());
            assert(texts(names@) =~= texts(before).push(names@.last()@));
        }
        proof {
            let more = all.take(i + 1);
            assert(more.drop_last() =~= all.take(i as int));
            assert(more.last() == indexes@[i as int]@);
        }
    }
    assert(all.take(n as int) =~= all);
    names
}

} // verus!

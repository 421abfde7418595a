//! Reading what a filter finds one document at a time.

use crate::catalog::Catalog;
use crate::collection::api::get_document;
use crate::collection::apply::stored_in;
use crate::collection::find::{candidate_ids, find_in, ids_cover, is_answer};
use crate::collection::maintain::copy_text;
use crate::collection::state::sound;
use crate::document::{DocId, DocModel, Document};
use crate::error::Error;
use crate::filter::{found_models, meets_all, Filter, FilterModel, Found};
use crate::storage::PageStore;
use vstd::prelude::*;

verus! {

/// A streaming `find`: reads one document at a time instead of collecting
/// them all.
///
/// At creation it takes the ids of every candidate (from index ranges or the
/// primary index; ids only, no documents). Each `next` then looks one id up,
/// reads that document, and checks it against the filter. So writes can happen
/// while a cursor is open, with these effects:
/// - a document deleted since creation is skipped;
/// - a document updated since creation is checked in its current state, and
///   skipped if it no longer matches;
/// - a document inserted since creation isn't seen.
///
/// With a sort, nothing can stream: every match has to be read to know which
/// comes first. Such a cursor runs the whole `find` when it's created and
/// hands out its results.
#[must_use]
pub struct Cursor {
    collection: String,
    filter: Filter,
    source: Source,
}

enum Source {
    Streaming { ids: Vec<DocId>, at: usize, remaining: Option<usize> },
    /// The results, the next one last.
    Collected(Vec<(DocId, Document)>),
}

/// What a cursor has still to do.
pub ghost enum CursorModel {
    /// The candidates left, and how many matches to give at most.
    Streaming { ids: Seq<Seq<u8>>, remaining: Option<usize> },
    /// The results left.
    Collected(Seq<Found>),
}

/// Whether the document with this id is there and matches.
pub open spec fn matches_now(
    held: Map<Seq<u8>, DocModel>,
    filter: FilterModel,
    id: Seq<u8>,
) -> bool {
    held.dom().contains(id) && meets_all(filter.conditions, held[id])
}

/// Which candidate comes next: the first that is there and matches, if any.
pub open spec fn next_match(
    held: Map<Seq<u8>, DocModel>,
    filter: FilterModel,
    ids: Seq<Seq<u8>>,
) -> nat
    decreases ids.len(),
{
    if ids.len() == 0 || matches_now(held, filter, ids[0]) {
        0
    } else {
        1 + next_match(held, filter, ids.skip(1))
    }
}

/// What is left once one match was given.
pub open spec fn one_less(remaining: Option<usize>) -> Option<usize> {
    match remaining {
        Some(n) => Some((n - 1) as usize),
        None => None,
    }
}

/// What `next` does on a sound database.
pub open spec fn next_outcome(
    held: Map<Seq<u8>, DocModel>,
    filter: FilterModel,
    before: CursorModel,
    after: CursorModel,
    r: Option<Result<(DocId, Document), Error>>,
    reliable: bool,
) -> bool {
    match before {
        CursorModel::Collected(found) => if found.len() == 0 {
            r is None && after == before
        } else {
            &&& r matches Some(Ok((id, doc))) && (id@, doc@) == found[0]
            &&& after == CursorModel::Collected(found.skip(1))
        },
        CursorModel::Streaming { ids, remaining } => if remaining == Some(0usize) {
            r is None && after == before
        } else {
            let k = next_match(held, filter, ids) as int;
            match r {
                None => k == ids.len() && after == (CursorModel::Streaming {
                    ids: Seq::empty(),
                    remaining,
                }),
                Some(Ok((id, doc))) => {
                    &&& k < ids.len() && id@ == ids[k] && doc@ == held[ids[k]]
                    &&& after == (CursorModel::Streaming {
                        ids: ids.skip(k + 1),
                        remaining: one_less(remaining),
                    })
                },
                Some(Err(_)) => !reliable,
            }
        },
    }
}

/// Ids as what they are.
pub open spec fn id_views(ids: Seq<DocId>) -> Seq<Seq<u8>> {
    Seq::new(ids.len(), |i: int| ids[i]@)
}

impl Cursor {
    pub closed spec fn wf(&self) -> bool {
        self.source matches Source::Streaming { ids, at, .. } ==> at <= ids@.len()
    }

    pub closed spec fn name(&self) -> Seq<char> {
        self.collection@
    }

    pub closed spec fn filter_model(&self) -> FilterModel {
        self.filter@
    }

    pub closed spec fn view(&self) -> CursorModel {
        match self.source {
            Source::Streaming { ids, at, remaining } => CursorModel::Streaming {
                ids: id_views(ids@).skip(at as int),
                remaining,
            },
            Source::Collected(found) => CursorModel::Collected(found_models(found@).reverse()),
        }
    }

    /// A cursor over what `filter` finds in a collection: with a sort, over
    /// all of it; otherwise over every candidate.
    pub fn open<S: PageStore>(
        catalog: &Catalog,
        store: &S,
        collection: &str,
        filter: Filter,
    ) -> (r: Result<Cursor, Error>)
        requires
            store.wf(),
        ensures
            r matches Ok(cursor) ==> cursor.wf() && cursor.name() == collection@
                && cursor.filter_model() == filter@,
            sound(store.pages(), catalog@) ==> ({
                let held = stored_in(store.pages(), catalog@, collection@);
                match r {
                    Ok(cursor) => match cursor@ {
                        CursorModel::Collected(found) => filter@.sort.len() > 0 && is_answer(
                            held,
                            filter@,
                            found,
                        ),
                        CursorModel::Streaming { ids, remaining } => filter@.sort.len() == 0
                            && remaining == filter@.limit && ids_cover(held, filter@, ids),
                    },
                    Err(_) => !store.reliable(),
                }
            }),
    {
        if filter.sort.len() > 0 {
            let mut found = match find_in(catalog, store, collection, &filter) {
                Ok(found) => found,
                Err(e) => return Err(e),
            };
            let ghost all = found_models(found@);
            let mut turned: Vec<(DocId, Document)> = Vec::new();
            assert(found_models(turned@) =~= all.skip(all.len() as int).reverse());
            while found.len() > 0
                invariant
                    found_models(found@) == all.take(found@.len() as int),
                    found@.len() <= all.len(),
                    found_models(turned@) == all.skip(found@.len() as int).reverse(),
                decreases found@.len(),
            {
                let ghost n = found@.len() as int;
                let ghost had = found@;
                let ghost was = turned@;
                match found.pop() {
                    Some(last) => {
                        proof {
                            assert(found_models(had)[n - 1] == all[n - 1]);
                            assert(found_models(found@) =~= all.take(n - 1)) by {
                                assert forall|i: int| 0 <= i < n - 1 implies #[trigger] found_models(
                                    found@,
                                )[i] == all.take(n - 1)[i] by {
                                    assert(found_models(had)[i] == all.take(n)[i]);
                                }
                            }
                        }
                        turned.push(last);
                        proof {
                            assert(found_models(turned@) =~= found_models(was).push(all[n - 1]));
                            assert(all.skip(n - 1).reverse() =~= all.skip(n).reverse().push(
                                all[n - 1],
                            ));
                        }
                    },
                    None => {},
                }
            }
            proof {
                assert(all.skip(0) =~= all);
                assert(found_models(turned@).reverse() =~= all);
            }
            return Ok(
                Cursor {
                    collection: copy_text(collection),
                    filter,
                    source: Source::Collected(turned),
                },
            );
        }
        let ids = match candidate_ids(catalog, store, collection, &filter) {
            Ok(ids) => ids,
            Err(e) => return Err(Error::Io(e)),
        };
        let remaining = filter.limit;
        assert(id_views(ids@).skip(0) =~= id_views(ids@));
        Ok(
            Cursor {
                collection: copy_text(collection),
                filter,
                source: Source::Streaming { ids, at: 0, remaining },
            },
        )
    }

    /// The next document and its id, or the error reading it. After an error
    /// the cursor can go on with the next document.
    pub fn next<S: PageStore>(&mut self, catalog: &Catalog, store: &S) -> (r: Option<
        Result<(DocId, Document), Error>,
    >)
        requires
            old(self).wf(),
            store.wf(),
        ensures
            final(self).wf(),
            final(self).name() == old(self).name(),
            final(self).filter_model() == old(self).filter_model(),
            sound(store.pages(), catalog@) ==> next_outcome(
                stored_in(store.pages(), catalog@, old(self).name()),
                old(self).filter_model(),
                old(self)@,
                final(self)@,
                r,
                store.reliable(),
            ),
    {
        match &mut self.source {
            Source::Collected(found) => {
                let ghost had = found_models(found@);
                match found.pop() {
                    Some(next) => {
                        proof {
                            let now = found_models(found@);
                            assert(now =~= had.drop_last());
                            assert(now.reverse() =~= had.reverse().skip(1));
                            assert((next.0@, next.1@) == had.reverse()[0]);
                        }
                        Some(Ok(next))
                    },
                    None => None,
                }
            },
            Source::Streaming { ids, at, remaining } => {
                if let Some(n) = *remaining {
                    if n == 0 {
                        return None;
                    }
                }
                let (now, found) = next_from(
                    catalog,
                    store,
                    self.collection.as_str(),
                    &self.filter,
                    ids,
                    *at,
                );
                *at = now;
                if let Some(Ok(_)) = &found {
                    if let Some(n) = *remaining {
                        *remaining = Some(n - 1);
                    }
                }
                found
            },
        }
    }
}

/// The first candidate from `at` on that is there and matches, and where to go
/// on.
fn next_from<S: PageStore>(
    catalog: &Catalog,
    store: &S,
    collection: &str,
    filter: &Filter,
    ids: &Vec<DocId>,
    at: usize,
) -> (r: (usize, Option<Result<(DocId, Document), Error>>))
    requires
        store.wf(),
        at <= ids@.len(),
    ensures
        at <= r.0 <= ids@.len(),
        sound(store.pages(), catalog@) ==> ({
            let held = stored_in(store.pages(), catalog@, collection@);
            let rest = id_views(ids@).skip(at as int);
            let k = next_match(held, filter@, rest) as int;
            match r.1 {
                None => k == rest.len() && r.0 == ids@.len() && id_views(ids@).skip(r.0 as int)
                    == Seq::<Seq<u8>>::empty(),
                Some(Ok((id, doc))) => {
                    &&& k < rest.len() && id@ == rest[k] && doc@ == held[rest[k]]
                    &&& id_views(ids@).skip(r.0 as int) == rest.skip(k + 1)
                },
                Some(Err(_)) => !store.reliable(),
            }
        }),
{
    let ghost held = stored_in(store.pages(), catalog@, collection@);
    let ghost all = id_views(ids@);
    let ghost rest = all.skip(at as int);
    let n: usize = ids.len();
    for i in at..n
        invariant
            n == ids@.len(),
            at <= n,
            all == id_views(ids@),
            rest == all.skip(at as int),
            store.wf(),
            held == stored_in(store.pages(), catalog@, collection@),
            sound(store.pages(), catalog@) ==> next_match(held, filter@, rest) == i - at
                + next_match(held, filter@, all.skip(i as int)),
    {
        let id: DocId = ids[i];
        let ghost here = all.skip(i as int);
        proof {
            assert(here[0] == id@);
            assert(here.skip(1) =~= all.skip(i + 1));
        }
        match get_document(catalog, store, collection, id) {
            Err(e) => return (i + 1, Some(Err(e))),
            // Deleted since the cursor was created.
            Ok(None) => {},
            Ok(Some(doc)) => {
                if filter.matches(&doc) {
                    proof {
                        assert(rest.skip(i - at + 1) =~= all.skip(i + 1));
                    }
                    return (i + 1, Some(Ok((id, doc))));
                }
                // A candidate that doesn't match (any more).
            },
        }
    }
    assert(all.skip(n as int) =~= Seq::empty());
    (n, None)
}

} // verus!

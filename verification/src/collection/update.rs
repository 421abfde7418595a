//! Changing many documents at once.

use super::api::write_if_changed;
use super::apply::{
    lemma_with_id_valid, lemma_written_twice, stored_in, update_refused, with_id_of, written,
};
use super::state::sound;
use crate::catalog::{indexes_of, Catalog, CollectionModel};
use crate::document::{
    entry_position, lemma_entry_position, lemma_position_is, models, valid, with_entry, within,
    DocId, DocModel, Document, MAX_NESTING,
};
use crate::encoding::encoded;
use crate::error::Error;
use crate::filter::{found_models, Found};
use crate::storage::{PageId, PageStore};
use vstd::prelude::*;

verus! {

/// Whether a document's new version is another as it is stored.
pub open spec fn changes(found: Found, new: DocModel) -> bool {
    encoded(with_id_of(new, found.0)) != encoded(found.1)
}

/// What a collection holds once the first `n` documents found have become
/// their new versions, each keeping its id.
pub open spec fn updated(
    held: Map<Seq<u8>, DocModel>,
    found: Seq<Found>,
    new: Seq<DocModel>,
    n: int,
) -> Map<Seq<u8>, DocModel>
    decreases n,
{
    if n <= 0 {
        held
    } else if changes(found[n - 1], new[n - 1]) {
        updated(held, found, new, n - 1).insert(
            found[n - 1].0,
            with_id_of(new[n - 1], found[n - 1].0),
        )
    } else {
        updated(held, found, new, n - 1)
    }
}

/// How many of the first `n` documents found become others.
pub open spec fn changed(found: Seq<Found>, new: Seq<DocModel>, n: int) -> nat
    decreases n,
{
    if n <= 0 {
        0
    } else if changes(found[n - 1], new[n - 1]) {
        changed(found, new, n - 1) + 1
    } else {
        changed(found, new, n - 1)
    }
}

/// Whether the first `n` documents found have become their new versions, and
/// nothing else has changed.
#[verifier::opaque]
pub open spec fn updated_first(
    before: Map<PageId, Seq<u8>>,
    list: Seq<CollectionModel>,
    pages: Map<PageId, Seq<u8>>,
    now: Seq<CollectionModel>,
    name: Seq<char>,
    found: Seq<Found>,
    new: Seq<DocModel>,
    n: int,
) -> bool {
    if changed(found, new, n) == 0 {
        now == list && pages == before
    } else {
        written(before, list, pages, now, name, updated(stored_in(before, list, name), found, new, n))
    }
}

proof fn lemma_none_changed(
    held: Map<Seq<u8>, DocModel>,
    found: Seq<Found>,
    new: Seq<DocModel>,
    n: int,
)
    requires
        changed(found, new, n) == 0,
    ensures
        updated(held, found, new, n) == held,
    decreases n,
{
    if n > 0 {
        lemma_none_changed(held, found, new, n - 1);
    }
}

/// A document that has its id keeps it.
proof fn lemma_id_kept(m: DocModel, id: Seq<u8>)
    ensures
        with_id_of(with_id_of(m, id), id) == with_id_of(m, id),
{
    match m {
        DocModel::Object(entries) => {
            let key = "_id"@;
            let value = DocModel::Id(id);
            let once = with_entry(entries, key, value);
            lemma_entry_position(entries, key);
            let at = entry_position(entries, key);
            assert forall|j: int| 0 <= j < at implies (#[trigger] once[j]).0 != key by {
                assert(once[j] == entries[j]);
            }
            lemma_position_is(once, key, at);
            assert(with_entry(once, key, value) =~= once);
        },
        _ => {},
    }
}

/// Changes one of the documents found.
fn update_one<S: PageStore>(
    catalog: &mut Catalog,
    store: &mut S,
    collection: &str,
    id: DocId,
    old_doc: &Document,
    new_doc: Document,
    start: Ghost<(Map<PageId, Seq<u8>>, Seq<CollectionModel>)>,
    all: Ghost<(Seq<Found>, Seq<DocModel>)>,
    i: Ghost<int>,
) -> (r: Result<bool, Error>)
    requires
        old(store).wf(),
    ensures
        final(store).wf(),
        final(store).reliable() == old(store).reliable(),
        sound(start@.0, start@.1) && valid(new_doc@) && 0 <= i@ && all@.0[i@] == (
            id@,
            old_doc@,
        ) && all@.1[i@] == new_doc@ && updated_first(
            start@.0,
            start@.1,
            old(store).pages(),
            old(catalog)@,
            collection@,
            all@.0,
            all@.1,
            i@,
        ) ==> match r {
            Ok(another) => another == changes((id@, old_doc@), new_doc@) && (another ==> within(
                with_id_of(new_doc@, id@),
                MAX_NESTING as int,
            )) && updated_first(
                start@.0,
                start@.1,
                final(store).pages(),
                final(catalog)@,
                collection@,
                all@.0,
                all@.1,
                i@ + 1,
            ),
            Err(e) => changes((id@, old_doc@), new_doc@) && update_refused(
                e,
                collection@,
                updated(stored_in(start@.0, start@.1, collection@), all@.0, all@.1, i@),
                indexes_of(start@.1, collection@),
                id@,
                with_id_of(new_doc@, id@),
                !old(store).reliable() || final(store).full(),
            ),
        },
{
    let ghost pages = store.pages();
    let ghost now = catalog@;
    let ghost held = stored_in(start@.0, start@.1, collection@);
    let ghost so_far = updated(held, all@.0, all@.1, i@);
    let ghost next = with_id_of(new_doc@, id@);
    let ghost good = sound(start@.0, start@.1) && valid(new_doc@) && 0 <= i@ && all@.0[i@] == (
        id@,
        old_doc@,
    ) && all@.1[i@] == new_doc@ && updated_first(
        start@.0,
        start@.1,
        pages,
        now,
        collection@,
        all@.0,
        all@.1,
        i@,
    );
    proof {
        if valid(new_doc@) {
            lemma_with_id_valid(new_doc@, id@);
        }
        lemma_id_kept(new_doc@, id@);
        if good {
            reveal(updated_first);
            if changed(all@.0, all@.1, i@) == 0 {
                lemma_none_changed(held, all@.0, all@.1, i@);
            }
            assert(sound(pages, now));
            assert(stored_in(pages, now, collection@) =~= so_far);
            assert(indexes_of(now, collection@) == indexes_of(start@.1, collection@));
        }
    }
    let r = write_if_changed(catalog, store, collection, id, old_doc, new_doc);
    proof {
        if good && r is Ok && changes(all@.0[i@], all@.1[i@]) && changed(all@.0, all@.1, i@) > 0 {
            lemma_written_twice(
                start@.0,
                start@.1,
                pages,
                now,
                store.pages(),
                catalog@,
                collection@,
                so_far,
                so_far.insert(id@, next),
            );
        }
    }
    r
}

/// Writes the new versions of the documents that a filter found, in that
/// order, and says how many became others. A document keeps its own id,
/// whatever its new version has there. After an error the store may be half
/// changed: the caller rolls it back.
pub fn update_many<S: PageStore>(
    catalog: &mut Catalog,
    store: &mut S,
    collection: &str,
    found: &Vec<(DocId, Document)>,
    new: &Vec<Document>,
) -> (r: Result<usize, Error>)
    requires
        old(store).wf(),
        found@.len() == new@.len(),
    ensures
        final(store).wf(),
        final(store).reliable() == old(store).reliable(),
        sound(old(store).pages(), old(catalog)@) && (forall|i: int|
            0 <= i < new@.len() ==> valid((#[trigger] new@[i])@)) ==> {
            let all = found_models(found@);
            let held = stored_in(old(store).pages(), old(catalog)@, collection@);
            match r {
                Ok(n) => n == changed(all, models(new@), all.len() as int) && (forall|i: int|
                    0 <= i < all.len() && changes(#[trigger] all[i], models(new@)[i]) ==> within(
                        with_id_of(models(new@)[i], all[i].0),
                        MAX_NESTING as int,
                    )) && if n == 0 {
                    final(catalog)@ == old(catalog)@ && final(store).pages() == old(store).pages()
                } else {
                    written(
                        old(store).pages(),
                        old(catalog)@,
                        final(store).pages(),
                        final(catalog)@,
                        collection@,
                        updated(held, all, models(new@), all.len() as int),
                    )
                },
                Err(e) => exists|k: int|
                    0 <= k < all.len() && changes(#[trigger] all[k], models(new@)[k])
                        && update_refused(
                        e,
                        collection@,
                        updated(held, all, models(new@), k),
                        indexes_of(old(catalog)@, collection@),
                        all[k].0,
                        with_id_of(models(new@)[k], all[k].0),
                        !old(store).reliable() || final(store).full(),
                    ),
            }
        },
{
    let ghost before = store.pages();
    let ghost list = catalog@;
    let ghost all = found_models(found@);
    let ghost next = models(new@);
    let ghost good = sound(before, list) && (forall|i: int|
        0 <= i < new@.len() ==> valid((#[trigger] new@[i])@));
    let n: usize = found.len();
    let mut count: usize = 0;
    proof {
        reveal(updated_first);
    }
    for i in 0..n
        invariant
            n == found@.len() == new@.len(),
            all == found_models(found@),
            next == models(new@),
            store.wf(),
            store.reliable() == old(store).reliable(),
            before == old(store).pages(),
            list == old(catalog)@,
            good == (sound(before, list) && (forall|i: int|
                0 <= i < new@.len() ==> valid((#[trigger] new@[i])@))),
            count <= i,
            good ==> count == changed(all, next, i as int),
            good ==> forall|j: int|
                0 <= j < i && changes(#[trigger] all[j], next[j]) ==> within(
                    with_id_of(next[j], all[j].0),
                    MAX_NESTING as int,
                ),
            good ==> updated_first(
                before,
                list,
                store.pages(),
                catalog@,
                collection@,
                all,
                next,
                i as int,
            ),
    {
        assert(all[i as int] == (found@[i as int].0@, found@[i as int].1@));
        assert(next[i as int] == new@[i as int]@);
        let version = new[i].clone();
        match update_one(
            catalog,
            store,
            collection,
            found[i].0,
            &found[i].1,
            version,
            Ghost((before, list)),
            Ghost((all, next)),
            Ghost(i as int),
        ) {
            Ok(another) => {
                if another {
                    count += 1;
                }
            },
            Err(e) => {
                proof {
                    if good {
                        assert(update_refused(
                            e,
                            collection@,
                            updated(stored_in(before, list, collection@), all, next, i as int),
                            indexes_of(list, collection@),
                            all[i as int].0,
                            with_id_of(next[i as int], all[i as int].0),
                            !old(store).reliable() || store.full(),
                        ));
                    }
                }
                return Err(e);
            },
        }
    }
    proof {
        if good {
            reveal(updated_first);
        }
    }
    Ok(count)
}

} // verus!

//! Finding documents.

use super::apply::{contents_of, stored_in};
use super::ordered::read_in_index_order;
use super::records::{lemma_contained, lemma_found};
use super::rest::lemma_take_apart;
use super::state::{
    collection_docs, collection_sound, entries_at, expected, index_sound, index_true,
    lemma_tree_facts, record_owned, records_owned, sound, sound_with, Docs, Owners,
};
use crate::catalog::entry::IndexModel;
use crate::catalog::{
    exists_in, index_models, lemma_position, position, Catalog, CollectionModel, IndexMeta,
};
use crate::data::{record_at, Records};
use crate::document::{DocId, DocModel, Document};
use crate::error::{Error, IoResult};
use crate::filter::{
    comes_before, found_models, ids_distinct, in_order, insert_in_order, meets_all,
    sort_order_is_strict, Filter, FilterModel, Found,
};
use crate::index::btree::{tree_entries, BTreeIndex};
use crate::index::entries::{find, in_range, sorted};
use crate::index::key::{self, key_id, MAX_COMPOUND_FIELDS};
use crate::index::node::entry_models;
use crate::index::range::KeyRange;
use crate::index::tree::{has_tree, Entry};
use crate::index::Index;
use crate::order::{bytes_less, bytes_lt, lemma_lt_irreflexive, lemma_lt_total, lemma_lt_transitive};
use crate::planner::{plans_cover, range_hits, range_models, ranges_hit};
use crate::secondary::{doc_has_key, lemma_key_of_doc};
use crate::storage::{PageId, PageStore, RecordLocation};
use vstd::prelude::*;

verus! {

/// Whether a document is among those found.
pub open spec fn is_among(found: Seq<Found>, id: Seq<u8>) -> bool {
    exists|i: int| 0 <= i < found.len() && (#[trigger] found[i]).0 == id
}

/// Whether documents are stored ones that meet a filter's conditions, none
/// twice.
pub open spec fn are_matches(
    held: Map<Seq<u8>, DocModel>,
    filter: FilterModel,
    found: Seq<Found>,
) -> bool {
    &&& ids_distinct(found)
    &&& forall|i: int|
        0 <= i < found.len() ==> held.dom().contains((#[trigger] found[i]).0)
            && held[found[i].0] == found[i].1 && meets_all(filter.conditions, found[i].1)
}

/// Whether every stored document that meets the conditions is there.
pub open spec fn are_all_matches(
    held: Map<Seq<u8>, DocModel>,
    filter: FilterModel,
    found: Seq<Found>,
) -> bool {
    forall|id: Seq<u8>| #[trigger]
        held.dom().contains(id) && meets_all(filter.conditions, held[id]) ==> is_among(found, id)
}

/// Whether documents are in the order of the sort, and every match that isn't
/// among them comes after them.
pub open spec fn come_first(
    held: Map<Seq<u8>, DocModel>,
    filter: FilterModel,
    found: Seq<Found>,
) -> bool {
    &&& in_order(filter.sort, found)
    &&& forall|id: Seq<u8>, i: int|
        #![trigger held.dom().contains(id), found[i]]
        held.dom().contains(id) && meets_all(filter.conditions, held[id]) && !is_among(found, id)
            && 0 <= i < found.len() ==> comes_before(filter.sort, found[i], (id, held[id]))
}

/// Whether documents are what a filter finds: matches, at most `limit` of
/// them, all of them if there are no more; with a sort, the first in its
/// order. Without one, the order is anyone's.
pub open spec fn is_answer(
    held: Map<Seq<u8>, DocModel>,
    filter: FilterModel,
    found: Seq<Found>,
) -> bool {
    &&& are_matches(held, filter, found)
    &&& filter.limit matches Some(limit) ==> found.len() <= limit
    &&& (filter.limit matches Some(limit) ==> found.len() < limit) ==> are_all_matches(
        held,
        filter,
        found,
    )
    &&& filter.sort.len() > 0 ==> come_first(held, filter, found)
}

/// What is known of a sound collection's documents and the entries that lead
/// to them.
pub proof fn lemma_readable(
    pages: Map<PageId, Seq<u8>>,
    list: Seq<CollectionModel>,
    own: Owners,
    at: int,
)
    requires
        sound_with(pages, list, own),
        0 <= at < list.len(),
    ensures
        ({
            let c = list[at];
            let docs = collection_docs(pages, c);
            let primary = entries_at(pages, c.meta.index_root);
            &&& has_tree(pages, c.meta.index_root)
            &&& tree_entries(pages, c.meta.index_root) == Some(primary)
            &&& sorted(primary)
            &&& forall|e: Entry| #[trigger]
                primary.contains(e) ==> e.0.len() == 16 && docs.dom().contains(e.0)
                    && docs[e.0].0 == e.1 && record_at(pages, e.1) == Some((e.0, docs[e.0].1))
            &&& forall|id: Seq<u8>| #[trigger]
                docs.dom().contains(id) ==> id.len() == 16 && primary.contains((id, docs[id].0))
            &&& forall|k: int|
                0 <= k < c.indexes.len() ==> leads(
                    pages,
                    docs,
                    #[trigger] c.indexes[k],
                )
        }),
{
    reveal(collection_sound);
    lemma_take_apart(pages, list, own, at);
    let c = list[at];
    let root = c.meta.index_root;
    let docs = collection_docs(pages, c);
    let primary = entries_at(pages, root);
    lemma_tree_facts(pages, root);
    reveal(records_owned);
    assert forall|e: Entry| #[trigger] primary.contains(e) implies e.0.len() == 16
        && docs.dom().contains(e.0) && docs[e.0].0 == e.1 && record_at(pages, e.1) == Some(
        (e.0, docs[e.0].1),
    ) by {
        lemma_contained(primary, e);
        let i = choose|i: int| 0 <= i < primary.len() && primary[i] == e;
        assert(record_owned(pages, own, root, primary[i]));
    }
    assert forall|id: Seq<u8>| #[trigger] docs.dom().contains(id) implies id.len() == 16
        && primary.contains((id, docs[id].0)) by {
        assert(find(primary, id) is Some);
        lemma_found(primary, id);
    }
    assert forall|k: int| 0 <= k < c.indexes.len() implies leads(
        pages,
        docs,
        #[trigger] c.indexes[k],
    ) by {
        lemma_leads(pages, own, docs, primary, c.indexes[k]);
    }
}

/// Whether an index's entries lead to the documents that have their keys, and
/// every key of every document has an entry.
pub open spec fn leads(pages: Map<PageId, Seq<u8>>, docs: Docs, index: IndexModel) -> bool {
    let entries = entries_at(pages, index.root);
    &&& 1 <= index.fields.len() <= MAX_COMPOUND_FIELDS
    &&& has_tree(pages, index.root)
    &&& tree_entries(pages, index.root) == Some(entries)
    &&& sorted(entries)
    &&& forall|e: Entry| #[trigger]
        entries.contains(e) ==> ({
            let id = key_id(e.0);
            &&& docs.dom().contains(id)
            &&& docs[id].0 == e.1
            &&& doc_has_key(docs[id].1, index, id, e.0)
            &&& record_at(pages, e.1) == Some((id, docs[id].1))
        })
    &&& forall|id: Seq<u8>, key: Seq<u8>|
        docs.dom().contains(id) && #[trigger] doc_has_key(docs[id].1, index, id, key)
            ==> entries.contains((key, docs[id].0))
}

proof fn lemma_leads(
    pages: Map<PageId, Seq<u8>>,
    own: Owners,
    docs: Docs,
    primary: Seq<Entry>,
    index: IndexModel,
)
    requires
        index_sound(pages, own, docs, index),
        forall|e: Entry| #[trigger]
            primary.contains(e) ==> e.0.len() == 16 && docs.dom().contains(e.0) && docs[e.0].0
                == e.1 && record_at(pages, e.1) == Some((e.0, docs[e.0].1)),
        forall|id: Seq<u8>| #[trigger]
            docs.dom().contains(id) ==> id.len() == 16 && primary.contains((id, docs[id].0)),
    ensures
        leads(pages, docs, index),
{
    reveal(index_true);
    lemma_tree_facts(pages, index.root);
    let entries = entries_at(pages, index.root);
    assert forall|e: Entry| #[trigger] entries.contains(e) implies ({
        let id = key_id(e.0);
        &&& docs.dom().contains(id)
        &&& docs[id].0 == e.1
        &&& doc_has_key(docs[id].1, index, id, e.0)
        &&& record_at(pages, e.1) == Some((id, docs[id].1))
    }) by {
        lemma_contained(entries, e);
        let id = key_id(e.0);
        assert(find(entries, e.0) == expected(docs, index, e.0));
        assert(primary.contains((id, docs[id].0)));
    }
    assert forall|id: Seq<u8>, key: Seq<u8>|
        docs.dom().contains(id) && #[trigger] doc_has_key(
            docs[id].1,
            index,
            id,
            key,
        ) implies entries.contains((key, docs[id].0)) by {
        lemma_key_of_doc(docs[id].1, index, id, key);
        assert(find(entries, key) == expected(docs, index, key));
        lemma_found(entries, key);
    }
}

/// Ids in ascending order.
spec fn ids_ascend(ids: Seq<DocId>) -> bool {
    forall|i: int, j: int|
        0 <= i < j < ids.len() ==> bytes_lt((#[trigger] ids[i])@, (#[trigger] ids[j])@)
}

/// Whether an id is among these.
spec fn has_id(ids: Seq<DocId>, id: Seq<u8>) -> bool {
    exists|i: int| 0 <= i < ids.len() && (#[trigger] ids[i])@ == id
}

/// Puts an id where it belongs, unless it's there: `false`, then.
fn note_id(seen: &mut Vec<DocId>, id: DocId) -> (new: bool)
    requires
        ids_ascend(old(seen)@),
    ensures
        ids_ascend(final(seen)@),
        new == !has_id(old(seen)@, id@),
        forall|other: Seq<u8>| #[trigger]
            has_id(final(seen)@, other) <==> has_id(old(seen)@, other) || other == id@,
{
    let ghost before = seen@;
    let mut low: usize = 0;
    let mut high: usize = seen.len();
    while low < high
        invariant
            low <= high <= seen@.len(),
            before == seen@,
            ids_ascend(before),
            forall|i: int| 0 <= i < low ==> bytes_lt((#[trigger] before[i])@, id@),
            forall|i: int| high <= i < before.len() ==> bytes_lt(id@, (#[trigger] before[i])@),
        decreases high - low,
    {
        let mid: usize = low + (high - low) / 2;
        if bytes_less(seen[mid].0.as_slice(), id.0.as_slice()) {
            proof {
                assert forall|i: int| 0 <= i < mid + 1 implies bytes_lt(
                    (#[trigger] before[i])@,
                    id@,
                ) by {
                    if i < mid {
                        lemma_lt_transitive(before[i]@, before[mid as int]@, id@);
                    }
                }
            }
            low = mid + 1;
        } else if bytes_less(id.0.as_slice(), seen[mid].0.as_slice()) {
            proof {
                assert forall|i: int| mid <= i < before.len() implies bytes_lt(
                    id@,
                    (#[trigger] before[i])@,
                ) by {
                    if i > mid {
                        lemma_lt_transitive(id@, before[mid as int]@, before[i]@);
                    }
                }
            }
            high = mid;
        } else {
            proof {
                lemma_lt_total(before[mid as int]@, id@);
                assert(before[mid as int]@ == id@);
            }
            return false;
        }
    }
    seen.insert(low, id);
    proof {
        lemma_lt_irreflexive(id@);
        if has_id(before, id@) {
            let i = choose|i: int| 0 <= i < before.len() && (#[trigger] before[i])@ == id@;
            assert(bytes_lt(before[i]@, id@) || bytes_lt(id@, before[i]@));
        }
        let after = seen@;
        assert(after == before.insert(low as int, id));
        assert forall|i: int, j: int| 0 <= i < j < after.len() implies bytes_lt(
            (#[trigger] after[i])@,
            (#[trigger] after[j])@,
        ) by {
            if i < low && j > low {
                assert(bytes_lt(before[i]@, before[j - 1]@));
            } else if i < low && j < low {
                assert(bytes_lt(before[i]@, before[j]@));
            } else if i > low {
                assert(bytes_lt(before[i - 1]@, before[j - 1]@));
            }
        }
        assert forall|other: Seq<u8>| #[trigger] has_id(after, other) <==> has_id(before, other)
            || other == id@ by {
            if has_id(after, other) {
                let i = choose|i: int| 0 <= i < after.len() && (#[trigger] after[i])@ == other;
                if i < low {
                    assert(before[i]@ == other);
                } else if i > low {
                    assert(before[i - 1]@ == other);
                }
            }
            if has_id(before, other) {
                let i = choose|i: int| 0 <= i < before.len() && (#[trigger] before[i])@ == other;
                if i < low {
                    assert(after[i]@ == other);
                } else {
                    assert(after[i + 1]@ == other);
                }
            }
            if other == id@ {
                assert(after[low as int]@ == other);
            }
        }
    }
    true
}

/// Whether entries lead to documents, each to another.
spec fn lead_apart(docs: Docs, entries: Seq<Entry>) -> bool {
    &&& forall|i: int, j: int|
        0 <= i < j < entries.len() ==> key_id((#[trigger] entries[i]).0) != key_id(
            (#[trigger] entries[j]).0,
        )
    &&& forall|i: int|
        0 <= i < entries.len() ==> docs.dom().contains(key_id((#[trigger] entries[i]).0))
            && docs[key_id(entries[i].0)].0 == entries[i].1
}

/// Whether an entry leads to a document.
spec fn leads_to(entries: Seq<Entry>, id: Seq<u8>) -> bool {
    exists|i: int| 0 <= i < entries.len() && key_id((#[trigger] entries[i]).0) == id
}

/// Whether entries are what a filter has to look at.
spec fn are_candidates(docs: Docs, filter: FilterModel, entries: Seq<Entry>) -> bool {
    &&& lead_apart(docs, entries)
    &&& forall|id: Seq<u8>| #[trigger]
        docs.dom().contains(id) && meets_all(filter.conditions, docs[id].1) ==> leads_to(
            entries,
            id,
        )
}

/// The whole primary index holds every match.
proof fn lemma_primary_candidates(
    pages: Map<PageId, Seq<u8>>,
    list: Seq<CollectionModel>,
    own: Owners,
    at: int,
    filter: FilterModel,
)
    requires
        sound_with(pages, list, own),
        0 <= at < list.len(),
    ensures
        are_candidates(
            collection_docs(pages, list[at]),
            filter,
            entries_at(pages, list[at].meta.index_root),
        ),
{
    lemma_readable(pages, list, own, at);
    let docs = collection_docs(pages, list[at]);
    let entries = entries_at(pages, list[at].meta.index_root);
    assert forall|i: int| 0 <= i < entries.len() implies key_id((#[trigger] entries[i]).0)
        == entries[i].0 && docs.dom().contains(entries[i].0) && docs[entries[i].0].0
        == entries[i].1 by {
        assert(entries.contains(entries[i]));
        assert(entries[i].0.skip(0) =~= entries[i].0);
    }
    assert forall|i: int, j: int| 0 <= i < j < entries.len() implies key_id(
        (#[trigger] entries[i]).0,
    ) != key_id((#[trigger] entries[j]).0) by {
        lemma_lt_irreflexive(entries[i].0);
        assert(bytes_lt(entries[i].0, entries[j].0));
    }
    assert forall|id: Seq<u8>| #[trigger]
        docs.dom().contains(id) && meets_all(filter.conditions, docs[id].1) implies leads_to(
        entries,
        id,
    ) by {
        let e = (id, docs[id].0);
        let i = choose|i: int| 0 <= i < entries.len() && entries[i] == e;
        assert(key_id(entries[i].0) == id);
    }
}

/// Whether the first `n` entries of a range have been noted.
spec fn noted(entries: Seq<Entry>, n: int, seen: Seq<DocId>) -> bool {
    forall|i: int| 0 <= i < n ==> has_id(seen, key_id((#[trigger] entries[i]).0))
}

/// Adds the entries of one index range to those found, each document once.
fn add_range<S: PageStore>(
    store: &S,
    index: &IndexMeta,
    range: &KeyRange,
    seen: &mut Vec<DocId>,
    found: &mut Vec<(Vec<u8>, RecordLocation)>,
    Ghost(docs): Ghost<Docs>,
) -> (r: IoResult<()>)
    requires
        store.wf(),
        ids_ascend(old(seen)@),
    ensures
        ids_ascend(final(seen)@),
        leads(store.pages(), docs, index@) && lead_apart(docs, entry_models(old(found)@)) && (
        forall|id: Seq<u8>| #[trigger]
            has_id(old(seen)@, id) <==> leads_to(entry_models(old(found)@), id)) ==> match r {
            Ok(()) => {
                &&& lead_apart(docs, entry_models(final(found)@))
                &&& forall|id: Seq<u8>| #[trigger]
                    has_id(final(seen)@, id) <==> leads_to(entry_models(final(found)@), id)
                &&& forall|id: Seq<u8>| #[trigger]
                    leads_to(entry_models(old(found)@), id) ==> leads_to(
                        entry_models(final(found)@),
                        id,
                    )
                &&& forall|id: Seq<u8>|
                    docs.dom().contains(id) && #[trigger] range_hits(
                        docs[id].1,
                        index@,
                        id,
                        range@,
                    ) && id.len() == 16 ==> leads_to(entry_models(final(found)@), id)
            },
            Err(_) => !store.reliable(),
        },
{
    let ghost pages = store.pages();
    let ghost before = entry_models(found@);
    let ghost good = leads(pages, docs, index@) && lead_apart(docs, before) && (forall|id: Seq<u8>|
        #[trigger] has_id(seen@, id) <==> leads_to(before, id));
    let entries = match BTreeIndex::new(index.root).range(store, range) {
        Ok(entries) => entries,
        Err(e) => return Err(e),
    };
    let ghost all = entries_at(pages, index.root);
    let ghost under = entry_models(entries@);
    let ghost pred = |e: Entry| range@.has(e.0);
    proof {
        if good {
            assert(under == in_range(all, range@));
            assert(under == all.filter(pred));
        }
    }
    let n: usize = entries.len();
    for i in 0..n
        invariant
            n == entries@.len(),
            under == entry_models(entries@),
            ids_ascend(seen@),
            good ==> leads(pages, docs, index@),
            good ==> under == all.filter(pred),
            all == entries_at(pages, index.root),
            good ==> lead_apart(docs, entry_models(found@)),
            good ==> forall|id: Seq<u8>| #[trigger]
                has_id(seen@, id) <==> leads_to(entry_models(found@), id),
            good ==> forall|id: Seq<u8>| #[trigger]
                leads_to(before, id) ==> leads_to(entry_models(found@), id),
            good ==> noted(under, i as int, seen@),
    {
        let ghost so_far = entry_models(found@);
        let ghost seen_so_far = seen@;
        let id = key::doc_id(entries[i].0.as_slice());
        assert(under[i as int] == (entries@[i as int].0@, entries@[i as int].1));
        proof {
            if good {
                assert(under.contains(under[i as int]));
                all.lemma_filter_contains_rev(pred, under[i as int]);
            }
        }
        let new: bool = note_id(seen, id);
        if new {
            found.push((vstd::slice::slice_to_vec(entries[i].0.as_slice()), entries[i].1));
            proof {
                let now = entry_models(found@);
                assert(now =~= so_far.push(under[i as int]));
                if good {
                    assert forall|a: int, b: int| 0 <= a < b < now.len() implies key_id(
                        (#[trigger] now[a]).0,
                    ) != key_id((#[trigger] now[b]).0) by {
                        if b == so_far.len() {
                            assert(now[a] == so_far[a]);
                            if key_id(now[a].0) == id@ {
                                assert(leads_to(so_far, id@));
                                assert(has_id(seen_so_far, id@));
                            }
                        } else {
                            assert(now[a] == so_far[a] && now[b] == so_far[b]);
                        }
                    }
                    assert forall|a: int| 0 <= a < now.len() implies docs.dom().contains(
                        key_id((#[trigger] now[a]).0),
                    ) && docs[key_id(now[a].0)].0 == now[a].1 by {
                        if a < so_far.len() {
                            assert(now[a] == so_far[a]);
                        }
                    }
                    assert forall|other: Seq<u8>| #[trigger] leads_to(now, other) <==> leads_to(
                        so_far,
                        other,
                    ) || other == id@ by {
                        if leads_to(so_far, other) {
                            let a = choose|a: int|
                                0 <= a < so_far.len() && key_id((#[trigger] so_far[a]).0) == other;
                            assert(now[a] == so_far[a]);
                        }
                        if leads_to(now, other) {
                            let a = choose|a: int|
                                0 <= a < now.len() && key_id((#[trigger] now[a]).0) == other;
                            if a < so_far.len() {
                                assert(so_far[a] == now[a]);
                            }
                        }
                        if other == id@ {
                            assert(key_id(now[so_far.len() as int].0) == id@);
                        }
                    }
                    assert forall|other: Seq<u8>| #[trigger] has_id(seen@, other) <==> leads_to(
                        now,
                        other,
                    ) by {
                        assert(has_id(seen_so_far, other) <==> leads_to(so_far, other));
                    }
                    assert forall|other: Seq<u8>| #[trigger]
                        leads_to(before, other) implies leads_to(now, other) by {
                        assert(leads_to(so_far, other));
                    }
                }
            }
        } else {
            proof {
                if good {
                    assert forall|other: Seq<u8>| #[trigger] has_id(seen@, other) <==> leads_to(
                        entry_models(found@),
                        other,
                    ) by {
                        assert(has_id(seen_so_far, other) <==> leads_to(so_far, other));
                    }
                }
            }
        }
        proof {
            assert(has_id(seen@, id@));
            if good {
                assert forall|a: int| 0 <= a < i + 1 implies has_id(
                    seen@,
                    key_id((#[trigger] under[a]).0),
                ) by {
                    if a < i {
                        assert(has_id(seen_so_far, key_id(under[a].0)));
                    }
                }
            }
        }
    }
    proof {
        if good {
            assert forall|id: Seq<u8>|
                docs.dom().contains(id) && #[trigger] range_hits(
                    docs[id].1,
                    index@,
                    id,
                    range@,
                ) && id.len() == 16 implies leads_to(entry_models(found@), id) by {
                let key = choose|key: Seq<u8>| #[trigger]
                    doc_has_key(docs[id].1, index@, id, key) && range@.has(key);
                lemma_key_of_doc(docs[id].1, index@, id, key);
                let e = (key, docs[id].0);
                assert(all.contains(e));
                let k = choose|k: int| 0 <= k < all.len() && all[k] == e;
                assert(pred(all[k]));
                all.lemma_filter_contains(pred, k);
                let a = choose|a: int| 0 <= a < under.len() && under[a] == e;
                assert(has_id(seen@, key_id(under[a].0)));
            }
        }
    }
    Ok(())
}

/// The index entries a filter has to look at: the secondary index ranges its
/// conditions allow, otherwise the whole primary index. Each document comes
/// once, even if several ranges hold it or one range holds it several times.
fn candidate_entries<S: PageStore>(
    catalog: &Catalog,
    store: &S,
    collection: &str,
    filter: &Filter,
) -> (r: IoResult<Vec<(Vec<u8>, RecordLocation)>>)
    requires
        store.wf(),
    ensures
        sound(store.pages(), catalog@) ==> match r {
            Ok(entries) => if exists_in(catalog@, collection@) {
                are_candidates(
                    collection_docs(
                        store.pages(),
                        catalog@[position(catalog@, collection@) as int],
                    ),
                    filter@,
                    entry_models(entries@),
                )
            } else {
                entries@.len() == 0
            },
            Err(_) => !store.reliable(),
        },
{
    let ghost pages = store.pages();
    let ghost list = catalog@;
    let ghost at = position(list, collection@) as int;
    let ghost good = sound(pages, list) && exists_in(list, collection@);
    let ghost own = choose|own: Owners| sound_with(pages, list, own);
    let ghost docs = collection_docs(pages, list[at]);
    proof {
        lemma_position(list, collection@);
        if good {
            lemma_readable(pages, list, own, at);
            lemma_primary_candidates(pages, list, own, at, filter@);
        }
    }
    let meta = match catalog.get(collection) {
        Some(meta) => meta,
        None => return Ok(Vec::new()),
    };
    let indexes: &[IndexMeta] = catalog.indexes(collection);
    let ghost models = index_models(indexes@);
    let ranges = match filter.index_ranges(indexes) {
        Some(ranges) => ranges,
        None => return BTreeIndex::new(meta.index_root).scan(store),
    };
    let ghost wanted = range_models(ranges@);
    let mut seen: Vec<DocId> = Vec::new();
    let mut found: Vec<(Vec<u8>, RecordLocation)> = Vec::new();
    let n: usize = ranges.len();
    proof {
        let none = entry_models(found@);
        assert forall|id: Seq<u8>| #[trigger] has_id(seen@, id) <==> leads_to(none, id) by {}
    }
    for i in 0..n
        invariant
            n == ranges@.len(),
            wanted == range_models(ranges@),
            models == index_models(indexes@),
            store.wf(),
            store.pages() == pages,
            ids_ascend(seen@),
            plans_cover(filter@.conditions, models, wanted),
            good ==> models == list[at].indexes,
            good ==> forall|k: int|
                0 <= k < list[at].indexes.len() ==> leads(pages, docs, #[trigger] list[at].indexes[k]),
            good ==> lead_apart(docs, entry_models(found@)),
            good ==> forall|id: Seq<u8>| #[trigger]
                has_id(seen@, id) <==> leads_to(entry_models(found@), id),
            good ==> forall|r: int, id: Seq<u8>|
                #![trigger wanted[r], docs.dom().contains(id)]
                0 <= r < i && docs.dom().contains(id) && id.len() == 16 && range_hits(
                    docs[id].1,
                    models[wanted[r].0],
                    id,
                    wanted[r].1,
                ) ==> leads_to(entry_models(found@), id),
            good == (sound(pages, list) && exists_in(list, collection@)),
            list == catalog@,
            at == position(list, collection@),
            docs == collection_docs(pages, list[at]),
            exists_in(list, collection@),
    {
        let ghost so_far = entry_models(found@);
        let k: usize = ranges[i].0;
        assert(wanted[i as int] == (k as int, ranges@[i as int].1@));
        assert(0 <= wanted[i as int].0 < models.len());
        assert(models[k as int] == indexes@[k as int]@);
        match add_range(store, &indexes[k], &ranges[i].1, &mut seen, &mut found, Ghost(docs)) {
            Ok(()) => {},
            Err(e) => return Err(e),
        }
        proof {
            if good {
                assert forall|r: int, id: Seq<u8>|
                    #![trigger wanted[r], docs.dom().contains(id)]
                    0 <= r < i + 1 && docs.dom().contains(id) && id.len() == 16 && range_hits(
                        docs[id].1,
                        models[wanted[r].0],
                        id,
                        wanted[r].1,
                    ) implies leads_to(entry_models(found@), id) by {
                    if r < i {
                        assert(leads_to(so_far, id));
                    }
                }
            }
        }
    }
    proof {
        if good {
            assert forall|id: Seq<u8>| #[trigger]
                docs.dom().contains(id) && meets_all(
                    filter@.conditions,
                    docs[id].1,
                ) implies leads_to(entry_models(found@), id) by {
                assert(ranges_hit(docs[id].1, models, id, wanted));
                let r = choose|r: int|
                    0 <= r < wanted.len() && range_hits(
                        docs[id].1,
                        models[(#[trigger] wanted[r]).0],
                        id,
                        wanted[r].1,
                    );
                assert(wanted[r] == wanted[r]);
            }
        }
    }
    Ok(found)
}

/// Whether ids are stored, none twice, and every match's is among them.
pub open spec fn ids_cover(
    held: Map<Seq<u8>, DocModel>,
    filter: FilterModel,
    ids: Seq<Seq<u8>>,
) -> bool {
    &&& ids.no_duplicates()
    &&& forall|i: int| 0 <= i < ids.len() ==> held.dom().contains(#[trigger] ids[i])
    &&& forall|id: Seq<u8>| #[trigger]
        held.dom().contains(id) && meets_all(filter.conditions, held[id]) ==> ids.contains(id)
}

/// The ids of the documents a filter has to look at.
pub fn candidate_ids<S: PageStore>(
    catalog: &Catalog,
    store: &S,
    collection: &str,
    filter: &Filter,
) -> (r: IoResult<Vec<DocId>>)
    requires
        store.wf(),
    ensures
        sound(store.pages(), catalog@) ==> match r {
            Ok(ids) => ids_cover(
                stored_in(store.pages(), catalog@, collection@),
                filter@,
                Seq::new(ids@.len(), |i: int| ids@[i]@),
            ),
            Err(_) => !store.reliable(),
        },
{
    let ghost held = stored_in(store.pages(), catalog@, collection@);
    let ghost docs = collection_docs(
        store.pages(),
        catalog@[position(catalog@, collection@) as int],
    );
    let ghost good = sound(store.pages(), catalog@) && exists_in(catalog@, collection@);
    let entries = match candidate_entries(catalog, store, collection, filter) {
        Ok(entries) => entries,
        Err(e) => return Err(e),
    };
    let ghost all = entry_models(entries@);
    let mut ids: Vec<DocId> = Vec::new();
    let n: usize = entries.len();
    for i in 0..n
        invariant
            n == entries@.len(),
            all == entry_models(entries@),
            good ==> are_candidates(docs, filter@, all),
            ids@.len() == i,
            forall|j: int| 0 <= j < i ==> (#[trigger] ids@[j])@ == key_id(all[j].0),
            good == (sound(store.pages(), catalog@) && exists_in(catalog@, collection@)),
    {
        proof {
            assert(all[i as int] == (entries@[i as int].0@, entries@[i as int].1));
        }
        ids.push(key::doc_id(entries[i].0.as_slice()));
    }
    proof {
        if good {
            let views = Seq::new(ids@.len(), |i: int| ids@[i]@);
            assert forall|i: int| 0 <= i < views.len() implies held.dom().contains(
                #[trigger] views[i],
            ) by {
                assert(views[i] == key_id(all[i].0));
            }
            assert forall|i: int, j: int|
                0 <= i < views.len() && 0 <= j < views.len() && i != j implies views[i]
                != views[j] by {
                assert(views[i] == key_id(all[i].0));
                assert(views[j] == key_id(all[j].0));
            }
            assert forall|id: Seq<u8>| #[trigger]
                held.dom().contains(id) && meets_all(
                    filter@.conditions,
                    held[id],
                ) implies views.contains(id) by {
                assert(docs.dom().contains(id) && docs[id].1 == held[id]);
                assert(leads_to(all, id));
                let i = choose|i: int| 0 <= i < all.len() && key_id((#[trigger] all[i]).0) == id;
                assert(views[i] == id);
            }
        }
    }
    Ok(ids)
}

/// The documents that meet the conditions, not yet in order.
pub fn read_matches<S: PageStore>(
    catalog: &Catalog,
    store: &S,
    collection: &str,
    filter: &Filter,
) -> (r: IoResult<Vec<(DocId, Document)>>)
    requires
        store.wf(),
    ensures
        sound(store.pages(), catalog@) ==> match r {
            Ok(found) => {
                let held = stored_in(store.pages(), catalog@, collection@);
                are_matches(held, filter@, found_models(found@)) && are_all_matches(
                    held,
                    filter@,
                    found_models(found@),
                )
            },
            Err(_) => !store.reliable(),
        },
{
    let ghost pages = store.pages();
    let ghost list = catalog@;
    let ghost at = position(list, collection@) as int;
    let ghost good = sound(pages, list) && exists_in(list, collection@);
    let ghost own = choose|own: Owners| sound_with(pages, list, own);
    let ghost docs = collection_docs(pages, list[at]);
    let ghost held = stored_in(pages, list, collection@);
    proof {
        lemma_position(list, collection@);
        if good {
            lemma_readable(pages, list, own, at);
        }
    }
    let entries = match candidate_entries(catalog, store, collection, filter) {
        Ok(entries) => entries,
        Err(e) => return Err(e),
    };
    let ghost all = entry_models(entries@);
    let mut records = Records::new(store);
    let mut found: Vec<(DocId, Document)> = Vec::new();
    let n: usize = entries.len();
    for i in 0..n
        invariant
            n == entries@.len(),
            all == entry_models(entries@),
            records.wf(),
            records.pages() == pages,
            records.reliable() == store.reliable(),
            sound(pages, list) && !good ==> n == 0,
            found@.len() <= i,
            good ==> are_candidates(docs, filter@, all),
            good ==> held == contents_of(docs),
            good ==> forall|id: Seq<u8>| #[trigger]
                docs.dom().contains(id) ==> record_at(pages, docs[id].0) == Some((id, docs[id].1)),
            good ==> are_matches(held, filter@, found_models(found@)),
            good ==> forall|j: int|
                0 <= j < found_models(found@).len() ==> led_to(
                    all,
                    i as int,
                    (#[trigger] found_models(found@)[j]).0,
                ),
            good == (sound(pages, list) && exists_in(list, collection@)),
            list == catalog@,
            pages == store.pages(),
            held == stored_in(pages, list, collection@),
            good ==> forall|k: int|
                0 <= k < i && meets_all(
                    filter@.conditions,
                    docs[key_id((#[trigger] all[k]).0)].1,
                ) ==> is_among(found_models(found@), key_id(all[k].0)),
    {
        let ghost so_far = found_models(found@);
        let loc: RecordLocation = entries[i].1;
        assert(all[i as int].1 == loc);
        let (id, doc) = match records.get(loc) {
            Ok(read) => read,
            Err(e) => {
                proof {
                    if good {
                        assert(docs.dom().contains(key_id(all[i as int].0)));
                    }
                }
                return Err(e);
            },
        };
        proof {
            if good {
                assert(docs.dom().contains(key_id(all[i as int].0)));
                assert(id@ == key_id(all[i as int].0));
                assert(doc@ == docs[id@].1);
            }
        }
        if filter.matches(&doc) {
            let ghost one = (id@, doc@);
            found.push((id, doc));
            proof {
                let now = found_models(found@);
                assert(now =~= so_far.push(one));
                if good {
                    lemma_match_added(held, filter@, so_far, one, all, i as int);
                    assert forall|k: int|
                        0 <= k < i + 1 && meets_all(
                            filter@.conditions,
                            docs[key_id((#[trigger] all[k]).0)].1,
                        ) implies is_among(now, key_id(all[k].0)) by {
                        if k < i {
                            assert(is_among(so_far, key_id(all[k].0)));
                            let a = choose|a: int|
                                0 <= a < so_far.len() && (#[trigger] so_far[a]).0 == key_id(
                                    all[k].0,
                                );
                            assert(now[a] == so_far[a]);
                        } else {
                            assert(now[so_far.len() as int].0 == id@);
                        }
                    }
                    assert forall|j: int| 0 <= j < now.len() implies led_to(
                        all,
                        i + 1,
                        (#[trigger] now[j]).0,
                    ) by {
                        if j < so_far.len() {
                            assert(now[j] == so_far[j]);
                            let k = choose|k: int|
                                0 <= k < i && key_id((#[trigger] all[k]).0) == so_far[j].0;
                            assert(key_id(all[k].0) == now[j].0);
                        } else {
                            assert(key_id(all[i as int].0) == now[j].0);
                        }
                    }
                }
            }
        } else {
            proof {
                if good {
                    assert forall|j: int| 0 <= j < so_far.len() implies led_to(
                        all,
                        i + 1,
                        (#[trigger] so_far[j]).0,
                    ) by {
                        let k = choose|k: int|
                            0 <= k < i && key_id((#[trigger] all[k]).0) == so_far[j].0;
                        assert(key_id(all[k].0) == so_far[j].0);
                    }
                }
            }
        }
    }
    proof {
        if good {
            let now = found_models(found@);
            assert forall|id: Seq<u8>| #[trigger]
                held.dom().contains(id) && meets_all(filter@.conditions, held[id]) implies is_among(
                now,
                id,
            ) by {
                assert(docs.dom().contains(id));
                assert(leads_to(all, id));
                let k = choose|k: int| 0 <= k < all.len() && key_id((#[trigger] all[k]).0) == id;
                assert(is_among(now, key_id(all[k].0)));
            }
        }
    }
    Ok(found)
}

/// Whether one of the first `n` entries leads to a document.
spec fn led_to(entries: Seq<Entry>, n: int, id: Seq<u8>) -> bool {
    exists|k: int| 0 <= k < n && key_id((#[trigger] entries[k]).0) == id
}

/// One more match, which wasn't there.
proof fn lemma_match_added(
    held: Map<Seq<u8>, DocModel>,
    filter: FilterModel,
    found: Seq<Found>,
    one: Found,
    all: Seq<Entry>,
    i: int,
)
    requires
        are_matches(held, filter, found),
        held.dom().contains(one.0),
        held[one.0] == one.1,
        meets_all(filter.conditions, one.1),
        0 <= i < all.len(),
        key_id(all[i].0) == one.0,
        forall|a: int, b: int|
            0 <= a < b < all.len() ==> key_id((#[trigger] all[a]).0) != key_id(
                (#[trigger] all[b]).0,
            ),
        forall|j: int| 0 <= j < found.len() ==> led_to(all, i, (#[trigger] found[j]).0),
    ensures
        are_matches(held, filter, found.push(one)),
{
    let now = found.push(one);
    assert forall|a: int, b: int| 0 <= a < b < now.len() implies (#[trigger] now[a]).0 != (
    #[trigger] now[b]).0 by {
        assert(now[a] == found[a]);
        if b < found.len() {
            assert(now[b] == found[b]);
        } else {
            let k = choose|k: int| 0 <= k < i && key_id((#[trigger] all[k]).0) == found[a].0;
            assert(key_id(all[k].0) != key_id(all[i].0));
        }
    }
    assert forall|a: int| 0 <= a < now.len() implies held.dom().contains((#[trigger] now[a]).0)
        && held[now[a].0] == now[a].1 && meets_all(filter.conditions, now[a].1) by {
        if a < found.len() {
            assert(now[a] == found[a]);
        }
    }
}

/// Sorts the matches.
fn sort_matches(filter: &Filter, items: Vec<(DocId, Document)>) -> (r: Vec<(DocId, Document)>)
    ensures
        ids_distinct(found_models(items@)) ==> in_order(filter@.sort, found_models(r@)),
        found_models(r@).to_multiset() =~= found_models(items@).to_multiset(),
{
    let ghost all = found_models(items@);
    let mut out: Vec<(DocId, Document)> = Vec::new();
    let n: usize = items.len();
    let mut rest = items;
    let ghost mut left = all;
    let ghost good = ids_distinct(all);
    proof {
        broadcast use vstd::seq_lib::group_to_multiset_ensures;

        assert(found_models(out@) =~= Seq::<Found>::empty());
        assert(left.to_multiset().add(found_models(out@).to_multiset()) =~= all.to_multiset());
    }
    while rest.len() > 0
        invariant
            left == found_models(rest@),
            good ==> in_order(filter@.sort, found_models(out@)),
            left.to_multiset().add(found_models(out@).to_multiset()) =~= all.to_multiset(),
            good ==> ids_distinct(left),
            good ==> forall|i: int, j: int|
                0 <= i < left.len() && 0 <= j < found_models(out@).len() ==> (#[trigger] left[i]).0
                    != (#[trigger] found_models(out@)[j]).0,
        decreases rest@.len(),
    {
        let ghost before = found_models(out@);
        let ghost was = left;
        let item = rest.pop();
        match item {
            Some(one) => {
                let ghost it = (one.0@, one.1@);
                proof {
                    assert(was.last() == it);
                    left = found_models(rest@);
                    assert(left =~= was.drop_last());
                    if good {
                        assert forall|i: int| 0 <= i < out@.len() implies (#[trigger] before[i]).0
                            != it.0 by {
                            assert(was[was.len() - 1].0 != before[i].0);
                        }
                    }
                }
                insert_in_order(&filter.sort, &mut out, one);
                proof {
                    broadcast use vstd::seq_lib::group_to_multiset_ensures;

                    let now = found_models(out@);
                    let k = choose|k: int|
                        0 <= k <= before.len() && now == #[trigger] before.insert(k, it);
                    assert(was =~= left.push(it));
                    assert(was.to_multiset() =~= left.to_multiset().insert(it));
                    assert(now.to_multiset() =~= before.to_multiset().insert(it));
                    if good {
                        assert forall|i: int, j: int|
                            0 <= i < left.len() && 0 <= j < now.len() implies (#[trigger] left[i]).0
                            != (#[trigger] now[j]).0 by {
                            assert(left[i] == was[i]);
                            if j == k {
                                assert(was[was.len() - 1] == it);
                                assert(was[i].0 != was[was.len() - 1].0);
                            } else if j < k {
                                assert(now[j] == before[j]);
                                assert(was[i].0 != before[j].0);
                            } else {
                                assert(now[j] == before[j - 1]);
                                assert(was[i].0 != before[j - 1].0);
                            }
                        }
                    }
                }
            },
            None => {},
        }
    }
    proof {
        broadcast use vstd::seq_lib::group_to_multiset_ensures;

        assert(left =~= Seq::<Found>::empty());
        assert(found_models(out@).to_multiset() =~= all.to_multiset());
    }
    out
}

/// What is in one order is what is in another.
proof fn lemma_reordered(
    held: Map<Seq<u8>, DocModel>,
    filter: FilterModel,
    a: Seq<Found>,
    b: Seq<Found>,
)
    requires
        are_matches(held, filter, a),
        are_all_matches(held, filter, a),
        a.to_multiset() =~= b.to_multiset(),
        in_order(filter.sort, b),
    ensures
        are_matches(held, filter, b),
        are_all_matches(held, filter, b),
{
    broadcast use vstd::seq_lib::group_to_multiset_ensures;

    assert forall|i: int| 0 <= i < b.len() implies held.dom().contains((#[trigger] b[i]).0)
        && held[b[i].0] == b[i].1 && meets_all(filter.conditions, b[i].1) by {
        assert(b.contains(b[i]));
        assert(b.to_multiset().count(b[i]) > 0);
        assert(a.to_multiset().count(b[i]) > 0);
        assert(a.contains(b[i]));
        let j = choose|j: int| 0 <= j < a.len() && a[j] == b[i];
        assert(held.dom().contains(a[j].0));
    }
    assert forall|i: int, j: int| 0 <= i < j < b.len() implies (#[trigger] b[i]).0 != (
    #[trigger] b[j]).0 by {
        assert(comes_before(filter.sort, b[i], b[j]));
        if b[i].0 == b[j].0 {
            assert(b[i] == b[j]);
            sort_order_is_strict(filter.sort, b[i], b[j], b[j]);
        }
    }
    assert forall|id: Seq<u8>| #[trigger]
        held.dom().contains(id) && meets_all(filter.conditions, held[id]) implies is_among(b, id) by {
        assert(is_among(a, id));
        let j = choose|j: int| 0 <= j < a.len() && (#[trigger] a[j]).0 == id;
        assert(a.contains(a[j]));
        assert(a.to_multiset().count(a[j]) > 0);
        assert(b.to_multiset().count(a[j]) > 0);
        assert(b.contains(a[j]));
        let i = choose|i: int| 0 <= i < b.len() && b[i] == a[j];
        assert(b[i].0 == id);
    }
}

/// The first of all matches are the answer.
proof fn lemma_first_are_answer(
    held: Map<Seq<u8>, DocModel>,
    filter: FilterModel,
    all: Seq<Found>,
    n: int,
)
    requires
        are_matches(held, filter, all),
        are_all_matches(held, filter, all),
        filter.sort.len() > 0 ==> in_order(filter.sort, all),
        0 <= n <= all.len(),
        match filter.limit {
            Some(limit) => n == all.len() && n <= limit || n == limit,
            None => n == all.len(),
        },
    ensures
        is_answer(held, filter, all.take(n)),
{
    let found = all.take(n);
    assert forall|i: int| 0 <= i < found.len() implies (#[trigger] found[i]) == all[i] by {}
    if n == all.len() {
        assert(found =~= all);
    }
    if filter.sort.len() > 0 {
        assert forall|id: Seq<u8>, i: int|
            #![trigger held.dom().contains(id), found[i]]
            held.dom().contains(id) && meets_all(filter.conditions, held[id]) && !is_among(
                found,
                id,
            ) && 0 <= i < found.len() implies comes_before(filter.sort, found[i], (id, held[id])) by {
            assert(is_among(all, id));
            let j = choose|j: int| 0 <= j < all.len() && (#[trigger] all[j]).0 == id;
            if j < n {
                assert(found[j].0 == id);
            }
            assert(all[j] == (id, held[id]));
            assert(comes_before(filter.sort, all[i], all[j]));
        }
        assert forall|i: int, j: int| 0 <= i < j < found.len() implies comes_before(
            filter.sort,
            #[trigger] found[i],
            #[trigger] found[j],
        ) by {
            assert(comes_before(filter.sort, all[i], all[j]));
        }
    }
    assert forall|i: int, j: int| 0 <= i < j < found.len() implies (#[trigger] found[i]).0 != (
    #[trigger] found[j]).0 by {
        assert(all[i].0 != all[j].0);
    }
}

/// What a filter finds, by reading every candidate.
pub fn find_in_memory<S: PageStore>(
    catalog: &Catalog,
    store: &S,
    collection: &str,
    filter: &Filter,
) -> (r: IoResult<Vec<(DocId, Document)>>)
    requires
        store.wf(),
    ensures
        sound(store.pages(), catalog@) ==> match r {
            Ok(found) => is_answer(
                stored_in(store.pages(), catalog@, collection@),
                filter@,
                found_models(found@),
            ),
            Err(_) => !store.reliable(),
        },
{
    let ghost held = stored_in(store.pages(), catalog@, collection@);
    let ghost good = sound(store.pages(), catalog@);
    let matches = match read_matches(catalog, store, collection, filter) {
        Ok(matches) => matches,
        Err(e) => return Err(e),
    };
    let mut found = matches;
    if filter.sort.len() > 0 {
        let ghost all = found_models(found@);
        found = sort_matches(filter, found);
        proof {
            if good {
                lemma_reordered(held, filter@, all, found_models(found@));
            }
        }
    }
    let ghost all = found_models(found@);
    match filter.limit {
        Some(limit) => {
            if limit < found.len() {
                found.truncate(limit);
            }
        },
        None => {},
    }
    proof {
        let n = found@.len() as int;
        assert(found_models(found@) =~= all.take(n));
        if good {
            lemma_first_are_answer(held, filter@, all, n);
        }
    }
    Ok(found)
}

/// What a filter finds: by reading an index in the order of its sort where one
/// has it, otherwise by reading every candidate.
pub fn find_in<S: PageStore>(
    catalog: &Catalog,
    store: &S,
    collection: &str,
    filter: &Filter,
) -> (r: Result<Vec<(DocId, Document)>, Error>)
    requires
        store.wf(),
    ensures
        sound(store.pages(), catalog@) ==> match r {
            Ok(found) => is_answer(
                stored_in(store.pages(), catalog@, collection@),
                filter@,
                found_models(found@),
            ),
            Err(_) => !store.reliable(),
        },
{
    let found = match filter.index_order(catalog.indexes(collection)) {
        Some(order) => read_in_index_order(catalog, store, collection, filter, order),
        None => find_in_memory(catalog, store, collection, filter),
    };
    match found {
        Ok(found) => Ok(found),
        Err(e) => Err(Error::Io(e)),
    }
}

} // verus!

//! What writes leave.

use super::finding::is_match;
use super::indexing::a_write_is_refused_for_a_collision;
use crate::catalog::entry::IndexModel;
use crate::catalog::{exists_in, indexes_of, CollectionModel};
use crate::collection::api::{upsert_outcome, Upserted};
use crate::collection::apply::{
    op_applied, op_outcome, refused, refused_with, stored_in, with_id_of,
};
use crate::collection::find::{are_all_matches, are_matches, is_among};
use crate::collection::update::{changed, changes, updated};
use crate::collection::write::names_collision;
use crate::database::{batch_makes, op_makes, Contents};
use crate::document::{
    depth_within, distinct_keys, entry_position, lemma_entry_position, lookup, valid, with_entry,
    within, DocId, DocModel, Document,
};
use crate::encoding::{encoded, encoded_document_reads_back};
use crate::error::Error;
use crate::filter::{ids_distinct, FilterModel, Found};
use crate::storage::PageId;
use crate::txn::WriteOp;
use vstd::prelude::*;
use vstd::utf8::encode_utf8;

verus! {

// ---------------------------------------------------------------------
// Fields.

/// A field is found by its name, and only by its name.
pub proof fn a_field_is_found_by_its_name<T>(entries: Seq<(Seq<char>, T)>, key: Seq<char>, i: int)
    requires
        distinct_keys(entries),
    ensures
        0 <= i < entries.len() && entries[i].0 == key ==> lookup(entries, key) == Some(entries[i].1),
        lookup(entries, key) is None <==> forall|j: int|
            0 <= j < entries.len() ==> (#[trigger] entries[j]).0 != key,
{
    lemma_entry_position(entries, key);
    let at = entry_position(entries, key);
    if 0 <= i < entries.len() && entries[i].0 == key {
        if at < i {
            assert(entries[at].0 != entries[i].0);
        } else if at > i {
            assert(entries[i].0 != key);
        }
    }
}

/// Setting a field sets that field and no other: it has the new value, the
/// others have theirs, each in its place, and a new one comes last.
pub proof fn setting_a_field_sets_only_it<T>(
    entries: Seq<(Seq<char>, T)>,
    key: Seq<char>,
    value: T,
    other: Seq<char>,
)
    ensures
        lookup(with_entry(entries, key, value), key) == Some(value),
        other != key ==> lookup(with_entry(entries, key, value), other) == lookup(entries, other),
        with_entry(entries, key, value).len() == if lookup(entries, key) is Some {
            entries.len()
        } else {
            entries.len() + 1
        },
        forall|i: int|
            0 <= i < entries.len() ==> (#[trigger] with_entry(entries, key, value)[i]).0
                == entries[i].0,
        lookup(entries, key) is None ==> with_entry(entries, key, value).last() == (key, value),
{
    let now = with_entry(entries, key, value);
    lemma_entry_position(entries, key);
    lemma_entry_position(entries, other);
    lemma_entry_position(now, key);
    lemma_entry_position(now, other);
    let at = entry_position(entries, key);
    let found = entry_position(now, key);
    assert(now[at] == (key, value));
    if found < at {
        assert(now[found] == entries[found]);
    } else if found > at {
        assert(now[at].0 != key);
    }
    if other != key {
        let before = entry_position(entries, other);
        let after = entry_position(now, other);
        if before < entries.len() {
            assert(now[before] == entries[before]);
            if after < before {
                assert(entries[after].0 != other);
                assert(now[after].0 == other);
            } else if after > before {
                assert(now[before].0 != other);
            }
        } else if after < now.len() {
            assert(now[after].0 == other);
            assert(entries[after].0 != other);
        }
    }
}

/// A stored object has its own id as `_id`, and its other fields as they were.
pub proof fn a_stored_object_has_its_id(
    entries: Seq<(Seq<char>, DocModel)>,
    id: Seq<u8>,
    other: Seq<char>,
)
    requires
        distinct_keys(entries),
    ensures
        with_id_of(DocModel::Object(entries), id) matches DocModel::Object(now) && lookup(
            now,
            "_id"@,
        ) == Some(DocModel::Id(id)) && (other != "_id"@ ==> lookup(now, other) == lookup(
            entries,
            other,
        )) && now.len() <= entries.len() + 1,
{
    setting_a_field_sets_only_it(entries, "_id"@, DocModel::Id(id), other);
}

/// What is no object is stored as it is.
pub proof fn what_is_no_object_is_stored_as_it_is(m: DocModel, id: Seq<u8>)
    requires
        !(m is Object),
    ensures
        with_id_of(m, id) == m,
{
}

// ---------------------------------------------------------------------
// One change.

/// An insert adds one document, with its id in it, and leaves the others; it is
/// refused exactly for an id that is there.
pub proof fn an_insert_adds_one_document(
    name: String,
    id: DocId,
    doc: Document,
    held: Map<Seq<u8>, DocModel>,
    other: Seq<u8>,
)
    ensures
        op_applied(WriteOp::Insert(name, id, doc), held) is None <==> held.dom().contains(id@),
        op_applied(WriteOp::Insert(name, id, doc), held) matches Some(now) ==> {
            &&& now.dom().contains(other) <==> held.dom().contains(other) || other == id@
            &&& other != id@ && held.dom().contains(other) ==> now[other] == held[other]
            &&& now[id@] == with_id_of(doc@, id@)
        },
{
}

/// An update changes one document and leaves the others; it is refused exactly
/// for an id that isn't there.
pub proof fn an_update_changes_one_document(
    name: String,
    id: DocId,
    doc: Document,
    held: Map<Seq<u8>, DocModel>,
    other: Seq<u8>,
)
    ensures
        op_applied(WriteOp::Update(name, id, doc), held) is Some <==> held.dom().contains(id@),
        op_applied(WriteOp::Update(name, id, doc), held) matches Some(now) ==> {
            &&& now.dom().contains(other) <==> held.dom().contains(other)
            &&& other != id@ && held.dom().contains(other) ==> now[other] == held[other]
            &&& now[id@] == with_id_of(doc@, id@)
        },
{
}

/// A delete takes one document away and leaves the others; it is refused exactly
/// for an id that isn't there.
pub proof fn a_delete_takes_one_document_away(
    name: String,
    id: DocId,
    held: Map<Seq<u8>, DocModel>,
    other: Seq<u8>,
)
    ensures
        op_applied(WriteOp::Delete(name, id), held) is Some <==> held.dom().contains(id@),
        op_applied(WriteOp::Delete(name, id), held) matches Some(now) ==> {
            &&& now.dom().contains(other) <==> held.dom().contains(other) && other != id@
            &&& now.dom().contains(other) ==> now[other] == held[other]
        },
{
}

/// A delete undoes an insert.
pub proof fn a_delete_undoes_an_insert(
    name: String,
    id: DocId,
    doc: Document,
    held: Map<Seq<u8>, DocModel>,
)
    requires
        op_applied(WriteOp::Insert(name, id, doc), held) is Some,
    ensures
        op_applied(
            WriteOp::Delete(name, id),
            op_applied(WriteOp::Insert(name, id, doc), held)->Some_0,
        ) == Some(held),
{
    let now = op_applied(WriteOp::Insert(name, id, doc), held)->Some_0;
    let back = op_applied(WriteOp::Delete(name, id), now)->Some_0;
    assert(back =~= held);
}

/// Of two updates of a document, the second stands.
pub proof fn the_last_update_stands(
    name: String,
    id: DocId,
    first: Document,
    second: Document,
    held: Map<Seq<u8>, DocModel>,
)
    requires
        held.dom().contains(id@),
    ensures
        op_applied(
            WriteOp::Update(name, id, second),
            op_applied(WriteOp::Update(name, id, first), held)->Some_0,
        ) == op_applied(WriteOp::Update(name, id, second), held),
{
    let once = op_applied(WriteOp::Update(name, id, first), held)->Some_0;
    let twice = op_applied(WriteOp::Update(name, id, second), once)->Some_0;
    assert(twice =~= op_applied(WriteOp::Update(name, id, second), held)->Some_0);
}

// ---------------------------------------------------------------------
// Batches.

/// A change touches no collection but its own, which it changes as it would
/// alone.
pub proof fn a_change_touches_only_its_collection(before: Contents, op: WriteOp, name: Seq<char>)
    ensures
        op_makes(before, op) is Some <==> op_applied(op, before(op.name())) is Some,
        op_makes(before, op) matches Some(after) ==> after(name) == if name == op.name() {
            op_applied(op, before(name))->Some_0
        } else {
            before(name)
        },
{
}

/// A batch makes what its first part makes, and then, of that, its second.
pub proof fn a_batch_is_its_parts_in_order(before: Contents, a: Seq<WriteOp>, b: Seq<WriteOp>)
    ensures
        batch_makes(before, a + b) == match batch_makes(before, a) {
            Some(middle) => batch_makes(middle, b),
            None => None,
        },
    decreases b.len(),
{
    if b.len() == 0 {
        assert(a + b =~= a);
    } else {
        let less = b.drop_last();
        assert((a + b).drop_last() =~= a + less);
        assert((a + b).last() == b.last());
        a_batch_is_its_parts_in_order(before, a, less);
    }
}

/// A batch of one change makes what the change makes, and one of none nothing.
pub proof fn a_batch_of_one_is_that_change(before: Contents, op: WriteOp)
    ensures
        batch_makes(before, seq![op]) == op_makes(before, op),
        batch_makes(before, Seq::empty()) == Some(before),
{
    let one = seq![op];
    assert(one.drop_last() =~= Seq::<WriteOp>::empty());
    assert(batch_makes(before, one.drop_last()) == Some(before));
    assert(one.last() == op);
}

/// Changes to different collections can change places.
pub proof fn changes_to_different_collections_change_places(
    before: Contents,
    a: WriteOp,
    b: WriteOp,
    name: Seq<char>,
)
    requires
        a.name() != b.name(),
    ensures
        batch_makes(before, seq![a, b]) is Some <==> batch_makes(before, seq![b, a]) is Some,
        batch_makes(before, seq![a, b]) is Some ==> (batch_makes(before, seq![a, b])->Some_0)(name)
            == (batch_makes(before, seq![b, a])->Some_0)(name),
{
    assert(seq![a, b] =~= seq![a] + seq![b]);
    assert(seq![b, a] =~= seq![b] + seq![a]);
    a_batch_is_its_parts_in_order(before, seq![a], seq![b]);
    a_batch_is_its_parts_in_order(before, seq![b], seq![a]);
    a_batch_of_one_is_that_change(before, a);
    a_batch_of_one_is_that_change(before, b);
    if op_makes(before, a) is Some {
        a_batch_of_one_is_that_change(op_makes(before, a)->Some_0, b);
    }
    if op_makes(before, b) is Some {
        a_batch_of_one_is_that_change(op_makes(before, b)->Some_0, a);
    }
}

// ---------------------------------------------------------------------
// Many documents.

/// An update of many gives each document found its new version, with its own id,
/// unless that is the document as it is, and leaves the others.
pub proof fn an_update_of_many_changes_what_was_found(
    held: Map<Seq<u8>, DocModel>,
    found: Seq<Found>,
    new: Seq<DocModel>,
    n: int,
    id: Seq<u8>,
)
    requires
        0 <= n <= found.len(),
        found.len() == new.len(),
        ids_distinct(found),
        forall|i: int|
            0 <= i < found.len() ==> held.dom().contains((#[trigger] found[i]).0),
    ensures
        updated(held, found, new, n).dom().contains(id) <==> held.dom().contains(id),
        forall|i: int|
            0 <= i < n && (#[trigger] found[i]).0 == id ==> updated(held, found, new, n)[id]
                == if changes(found[i], new[i]) {
                with_id_of(new[i], id)
            } else {
                held[id]
            },
        (forall|i: int| 0 <= i < n ==> (#[trigger] found[i]).0 != id) ==> updated(
            held,
            found,
            new,
            n,
        )[id] == held[id],
    decreases n,
{
    if n > 0 {
        an_update_of_many_changes_what_was_found(held, found, new, n - 1, id);
        if found[n - 1].0 == id {
            assert forall|i: int| 0 <= i < n - 1 implies (#[trigger] found[i]).0 != id by {
                assert(found[i].0 != found[n - 1].0);
            }
        }
    }
}

/// A document becomes another by a new version exactly if that, with its id in
/// it, isn't the document as it is.
pub proof fn a_new_version_is_another_document(found: Found, new: DocModel)
    requires
        valid(found.1),
        valid(with_id_of(new, found.0)),
        depth_within(found.1, 64),
        depth_within(with_id_of(new, found.0), 64),
        encoded(found.1).len() < 0x1_0000_0000,
        encoded(with_id_of(new, found.0)).len() < 0x1_0000_0000,
    ensures
        changes(found, new) <==> with_id_of(new, found.0) != found.1,
{
    encoded_document_reads_back(found.1, 64, Seq::empty());
    encoded_document_reads_back(with_id_of(new, found.0), 64, Seq::empty());
}

/// An update of many counts the documents that became others.
pub proof fn an_update_of_many_counts_what_changed(found: Seq<Found>, new: Seq<DocModel>, n: int)
    requires
        0 <= n,
    ensures
        changed(found, new, n) == Seq::new(n as nat, |i: int| i).filter(
            |i: int| changes(found[i], new[i]),
        ).len(),
    decreases n,
{
    let all = Seq::new(n as nat, |i: int| i);
    let test = |i: int| changes(found[i], new[i]);
    reveal(Seq::filter);
    if n > 0 {
        an_update_of_many_counts_what_changed(found, new, n - 1);
        assert(all.drop_last() =~= Seq::new((n - 1) as nat, |i: int| i));
        assert(all.last() == n - 1);
    }
}

// ---------------------------------------------------------------------
// Upserts.

/// An upsert inserts exactly if nothing matches, and otherwise replaces the one
/// match; either way the document is there with its id in it, and all others are
/// as they were.
pub proof fn an_upsert_inserts_or_replaces(
    before: Map<PageId, Seq<u8>>,
    list: Seq<CollectionModel>,
    after: Map<PageId, Seq<u8>>,
    now: Seq<CollectionModel>,
    name: Seq<char>,
    filter: FilterModel,
    id_if_new: DocId,
    doc: DocModel,
    r: Result<Upserted, Error>,
    other: Seq<u8>,
)
    requires
        upsert_outcome(before, list, after, now, name, filter, id_if_new, doc, r, false),
    ensures
        r matches Ok(done) ==> ({
            let held = stored_in(before, list, name);
            let then = stored_in(after, now, name);
            let id = match done {
                Upserted::Inserted(id) => id@,
                Upserted::Updated(id) => id@,
            };
            &&& then.dom().contains(id) && then[id] == with_id_of(doc, id)
            &&& other != id ==> (then.dom().contains(other) <==> held.dom().contains(other))
            &&& other != id && held.dom().contains(other) ==> then[other] == held[other]
            &&& is_match(held, filter, other) ==> other == id && done is Updated
            &&& done is Updated ==> is_match(held, filter, id)
            &&& done is Inserted ==> id == id_if_new@
        }),
        r matches Err(Error::MultipleMatches { count, .. }) ==> exists|a: Seq<u8>, b: Seq<u8>|
            a != b && #[trigger] is_match(stored_in(before, list, name), filter, a)
                && #[trigger] is_match(stored_in(before, list, name), filter, b),
{
    let held = stored_in(before, list, name);
    match r {
        Ok(Upserted::Inserted(id)) => {
            let all = choose|all: Seq<Found>|
                all.len() == 0 && are_matches(held, filter, all) && #[trigger] are_all_matches(
                    held,
                    filter,
                    all,
                );
            if is_match(held, filter, other) {
                assert(is_among(all, other));
            }
        },
        Ok(Upserted::Updated(id)) => {
            let all = choose|all: Seq<Found>|
                all.len() == 1 && are_matches(held, filter, all) && #[trigger] are_all_matches(
                    held,
                    filter,
                    all,
                );
            assert(is_among(all, id@));
            if is_match(held, filter, other) {
                assert(is_among(all, other));
            }
        },
        Err(Error::MultipleMatches { collection, count }) => {
            let all = choose|all: Seq<Found>|
                all.len() == count as int && are_matches(held, filter, all)
                    && #[trigger] are_all_matches(held, filter, all);
            assert(held.dom().contains(all[0].0));
            assert(held.dom().contains(all[1].0));
            assert(all[0].0 != all[1].0);
            assert(is_match(held, filter, all[0].0));
            assert(is_match(held, filter, all[1].0));
        },
        _ => {},
    }
}

// ---------------------------------------------------------------------
// Refusals.

/// On a medium that works and has room, a write is refused only for what is
/// wrong with it: an insert of an id that isn't there, into a collection that is
/// there or whose name takes no more than 255 bytes, of a document that isn't
/// nested too deep, isn't too long and equals no other under a unique index,
/// goes in.
pub proof fn a_good_insert_goes_in(
    op: WriteOp,
    before: Map<PageId, Seq<u8>>,
    list: Seq<CollectionModel>,
    after: Map<PageId, Seq<u8>>,
    now: Seq<CollectionModel>,
    r: Result<(), Error>,
)
    requires
        op_outcome(op, before, list, after, now, r, false),
        op matches WriteOp::Insert(name, id, doc) && !stored_in(
            before,
            list,
            name@,
        ).dom().contains(id@) && (exists_in(list, name@) || encode_utf8(name@).len() < 256)
            && within(with_id_of(doc@, id@), 64) && encoded(with_id_of(doc@, id@)).len()
            < 0x1_0000_0000 && !refused(
            stored_in(before, list, name@),
            indexes_of(list, name@),
            id@,
            with_id_of(doc@, id@),
        ),
    ensures
        r is Ok,
{
    if r is Err {
        lemma_refused_with(
            r->Err_0,
            op.name(),
            stored_in(before, list, op.name()),
            indexes_of(list, op.name()),
            op->Insert_1@,
            with_id_of(op->Insert_2@, op->Insert_1@),
        );
    }
}

/// On a medium that works and has room, an update of an id that is there, to a
/// document that isn't nested too deep, isn't too long and equals no other under
/// a unique index, is made.
pub proof fn a_good_update_is_made(
    op: WriteOp,
    before: Map<PageId, Seq<u8>>,
    list: Seq<CollectionModel>,
    after: Map<PageId, Seq<u8>>,
    now: Seq<CollectionModel>,
    r: Result<(), Error>,
)
    requires
        op_outcome(op, before, list, after, now, r, false),
        op matches WriteOp::Update(name, id, doc) && stored_in(
            before,
            list,
            name@,
        ).dom().contains(id@) && within(with_id_of(doc@, id@), 64) && encoded(
            with_id_of(doc@, id@),
        ).len() < 0x1_0000_0000 && !refused(
            stored_in(before, list, name@),
            indexes_of(list, name@),
            id@,
            with_id_of(doc@, id@),
        ),
    ensures
        r is Ok,
{
    if r is Err {
        lemma_refused_with(
            r->Err_0,
            op.name(),
            stored_in(before, list, op.name()),
            indexes_of(list, op.name()),
            op->Update_1@,
            with_id_of(op->Update_2@, op->Update_1@),
        );
    }
}

/// On a medium that works, a delete of an id that is there is made.
pub proof fn a_good_delete_is_made(
    op: WriteOp,
    before: Map<PageId, Seq<u8>>,
    list: Seq<CollectionModel>,
    after: Map<PageId, Seq<u8>>,
    now: Seq<CollectionModel>,
    r: Result<(), Error>,
)
    requires
        op_outcome(op, before, list, after, now, r, false),
        op matches WriteOp::Delete(name, id) && stored_in(before, list, name@).dom().contains(id@),
    ensures
        r is Ok,
{
}

/// A write refused for values that are taken names the index, the document that
/// has them, and the one to be written.
proof fn lemma_refused_with(
    e: Error,
    name: Seq<char>,
    held: Map<Seq<u8>, DocModel>,
    indexes: Seq<IndexModel>,
    id: Seq<u8>,
    doc: DocModel,
)
    ensures
        refused_with(e, name, held, indexes, id, doc) ==> refused(held, indexes, id, doc),
{
    if refused_with(e, name, held, indexes, id, doc) {
        let k = choose|k: int|
            0 <= k < indexes.len() && (#[trigger] indexes[k]).unique && names_collision(
                e,
                name,
                indexes[k],
                held,
                id,
                doc,
            );
        a_write_is_refused_for_a_collision(held, indexes, id, doc);
        assert(held.dom().contains(e->DuplicateValue_existing@));
    }
}

/// What is wrong with a write is refused: an insert of an id that is there, an
/// update or a delete of one that isn't, a document nested more than 64 levels
/// deep, and values that another document has under a unique index.
pub proof fn a_wrong_write_is_refused(
    op: WriteOp,
    before: Map<PageId, Seq<u8>>,
    list: Seq<CollectionModel>,
    after: Map<PageId, Seq<u8>>,
    now: Seq<CollectionModel>,
    r: Result<(), Error>,
    broken: bool,
)
    requires
        op_outcome(op, before, list, after, now, r, broken),
        ({
            let held = stored_in(before, list, op.name());
            let indexes = indexes_of(list, op.name());
            match op {
                WriteOp::Insert(_, id, doc) => held.dom().contains(id@) || !within(
                    with_id_of(doc@, id@),
                    64,
                ) || refused(held, indexes, id@, with_id_of(doc@, id@)),
                WriteOp::Update(_, id, doc) => !held.dom().contains(id@) || !within(
                    with_id_of(doc@, id@),
                    64,
                ) || refused(held, indexes, id@, with_id_of(doc@, id@)),
                WriteOp::Delete(_, id) => !held.dom().contains(id@),
            }
        }),
    ensures
        r is Err,
{
}

/// What a write is refused for is what its error says: an id that is there for
/// an insert, and one that isn't for an update or a delete, is said before
/// anything else.
pub proof fn an_error_says_what_is_wrong(
    op: WriteOp,
    before: Map<PageId, Seq<u8>>,
    list: Seq<CollectionModel>,
    after: Map<PageId, Seq<u8>>,
    now: Seq<CollectionModel>,
    e: Error,
)
    requires
        op_outcome(op, before, list, after, now, Err::<(), Error>(e), false),
    ensures
        ({
            let held = stored_in(before, list, op.name());
            let known = match op {
                WriteOp::Insert(_, id, _) => held.dom().contains(id@),
                WriteOp::Update(_, id, _) => held.dom().contains(id@),
                WriteOp::Delete(_, id) => held.dom().contains(id@),
            };
            let id = match op {
                WriteOp::Insert(_, id, _) => id,
                WriteOp::Update(_, id, _) => id,
                WriteOp::Delete(_, id) => id,
            };
            &&& op is Insert ==> (known <==> e is DuplicateId)
            &&& !(op is Insert) ==> (!known <==> e is NotFound)
            &&& e matches Error::DuplicateId { collection, id: taken } ==> collection@ == op.name()
                && taken@ == id@
            &&& e matches Error::NotFound { collection, id: missing } ==> collection@ == op.name()
                && missing@ == id@
            &&& e matches Error::DuplicateValue { collection, id: new, existing, .. }
                ==> collection@ == op.name() && new@ == id@ && existing@ != id@
                && held.dom().contains(existing@)
        }),
{
}

} // verus!

//! Which fields an index can be on, and what a unique one refuses.

use super::comparing::is_number;
use super::paths::{a_path_reads_as_its_names, dotted, is_name, lemma_ascii_bytes};
use crate::catalog::entry::{comma_list, index_name, IndexModel};
use crate::collection::apply::{refused, stored_in, would_conflict};
use crate::collection::drops::collection_dropped;
use crate::catalog::{
    exists_in, index_position, indexes_of, lemma_index_position, lemma_position, meta_of,
    names_distinct, position, CollectionModel, IndexOptions,
};
use crate::collection::fields::{field_usable, fields_usable, no_brackets};
use crate::collection::handle::{sparse_names, unique_names};
use crate::collection::indexing::{build_error, held_apart, index_built, index_with};
use crate::document::DocModel;
use crate::error::Error;
use crate::filter::value_meets;
use crate::path::{path_steps, starless, value_of, values_of};
use crate::query::{related, Op, Relation};
use crate::secondary::{
    collides, comparable, documents_collide, field_values_of, has_tuple, tuples_equal,
};
use crate::storage::PageId;
use crate::text::lemma_utf8_injective;
use vstd::prelude::*;
use vstd::utf8::encode_utf8;

verus! {

/// Whether a name can be in the path of an index: it has a character, and none
/// that a path gives a meaning.
pub open spec fn indexable_name(name: Seq<char>) -> bool {
    name.len() > 0 && !name.contains('.') && !name.contains('[') && !name.contains(']')
}

/// An index takes every path of names that have characters, none of them a
/// bracket, whatever else is in them, each with any number of `[*]` behind it,
/// unless the first one is `_id`.
pub proof fn an_index_takes_any_names(parts: Seq<(Seq<char>, nat)>)
    requires
        parts.len() > 0,
        forall|i: int| 0 <= i < parts.len() ==> indexable_name((#[trigger] parts[i]).0),
        parts[0].0 != "_id"@,
    ensures
        field_usable(dotted(parts)),
        fields_usable(seq![dotted(parts)]),
{
    assert forall|i: int| 0 <= i < parts.len() implies is_name((#[trigger] parts[i]).0) by {
        let name = parts[i].0;
        assert(indexable_name(name));
        assert(name.contains(name.last())) by {
            assert(name[name.len() - 1] == name.last());
        }
    }
    a_path_reads_as_its_names(parts);
    let path = dotted(parts);
    let steps = path_steps(path);
    assert(steps[0].name == encode_utf8(parts[0].0));
    if steps[0].name == encode_utf8("_id"@) {
        lemma_utf8_injective(parts[0].0, "_id"@);
    }
    assert forall|i: int| 0 <= i < steps.len() implies (#[trigger] steps[i]).name.len() > 0
        && no_brackets(steps[i].name) by {
        let name = parts[i].0;
        assert(steps[i].name == encode_utf8(name));
        assert(indexable_name(name));
        lemma_bracketless(name);
    }
    assert(field_usable(path));
    let fields = seq![path];
    assert forall|i: int| 0 <= i < fields.len() implies field_usable(#[trigger] fields[i]) by {
        assert(fields[i] == path);
    }
}

/// An index takes every path whose steps have names, without the bytes of
/// brackets, the first of them another than `_id`.
pub proof fn an_index_takes_any_steps(path: Seq<char>)
    requires
        path_steps(path)[0].name != encode_utf8("_id"@),
        forall|i: int|
            0 <= i < path_steps(path).len() ==> (#[trigger] path_steps(path)[i]).name.len() > 0,
        forall|i: int, j: int|
            0 <= i < path_steps(path).len() && 0 <= j < path_steps(path)[i].name.len()
                ==> #[trigger] path_steps(path)[i].name[j] != 0x5B && path_steps(path)[i].name[j]
                != 0x5D,
    ensures
        fields_usable(seq![path]),
{
    let steps = path_steps(path);
    assert forall|i: int| 0 <= i < steps.len() implies no_brackets((#[trigger] steps[i]).name) by {
        let name = steps[i].name;
        assert forall|j: int| 0 <= j < name.len() implies (#[trigger] name[j]) != 91 && name[j]
            != 93 by {
            assert(steps[i].name[j] != 0x5B);
        }
    }
    let fields = seq![path];
    assert forall|i: int| 0 <= i < fields.len() implies field_usable(#[trigger] fields[i]) by {
        assert(fields[i] == path);
    }
}

/// A name without brackets has no bytes of brackets, and some byte.
proof fn lemma_bracketless(name: Seq<char>)
    requires
        indexable_name(name),
    ensures
        no_brackets(encode_utf8(name)),
        encode_utf8(name).len() > 0,
{
    lemma_ascii_bytes(name, '[');
    lemma_ascii_bytes(name, ']');
    let bytes = encode_utf8(name);
    assert forall|i: int| 0 <= i < bytes.len() implies (#[trigger] bytes[i]) != 91 && bytes[i]
        != 93 by {
        assert(bytes.contains(bytes[i]));
    }
    if bytes.len() == 0 {
        assert(encode_utf8(Seq::<char>::empty()) =~= Seq::<u8>::empty());
        assert(bytes =~= encode_utf8(Seq::<char>::empty()));
        lemma_utf8_injective(name, Seq::<char>::empty());
    }
}

/// No index is on a path that begins with `_id`, or with a name that is empty or
/// has a bracket in it, alone or among other fields.
pub proof fn an_index_refuses_other_names(
    parts: Seq<(Seq<char>, nat)>,
    k: int,
    fields: Seq<Seq<char>>,
    at: int,
)
    requires
        0 <= k < parts.len(),
        forall|i: int| 0 <= i < parts.len() ==> is_name((#[trigger] parts[i]).0),
        parts[0].0 == "_id"@ || !indexable_name(parts[k].0),
        0 <= at < fields.len(),
        fields[at] == dotted(parts),
    ensures
        !field_usable(dotted(parts)),
        !fields_usable(fields),
{
    a_path_reads_as_its_names(parts);
    let path = dotted(parts);
    let steps = path_steps(path);
    assert(steps[0].name == encode_utf8(parts[0].0));
    assert(steps[k].name == encode_utf8(parts[k].0));
    if !indexable_name(parts[k].0) {
        let name = parts[k].0;
        let bytes = encode_utf8(name);
        assert(is_name(name));
        if name.len() == 0 {
            assert(name =~= Seq::<char>::empty());
            assert(bytes.len() == 0);
        } else if name.contains('[') {
            lemma_ascii_bytes(name, '[');
            let j = choose|j: int| 0 <= j < bytes.len() && bytes[j] == '[' as u8;
            assert(bytes[j] == 91);
            assert(!no_brackets(bytes));
        } else {
            lemma_ascii_bytes(name, ']');
            let j = choose|j: int| 0 <= j < bytes.len() && bytes[j] == ']' as u8;
            assert(bytes[j] == 93);
            assert(!no_brackets(bytes));
        }
    }
    assert(!field_usable(fields[at]));
}

/// An index on several fields takes up to eight of them that it takes alone,
/// none twice, and none with a `[*]`.
pub proof fn an_index_takes_several_fields(fields: Seq<Seq<char>>)
    ensures
        fields_usable(fields) <==> {
            &&& 1 <= fields.len() <= 8
            &&& forall|i: int|
                0 <= i < fields.len() ==> fields_usable(seq![#[trigger] fields[i]])
            &&& fields.len() > 1 ==> forall|i: int|
                0 <= i < fields.len() ==> starless(path_steps(#[trigger] fields[i]))
            &&& forall|i: int, j: int|
                0 <= i < j < fields.len() ==> #[trigger] fields[i] != #[trigger] fields[j]
        },
{
    assert forall|i: int| 0 <= i < fields.len() implies (field_usable(#[trigger] fields[i])
        <==> fields_usable(seq![fields[i]])) by {
        let one = seq![fields[i]];
        assert(one[0] == fields[i]);
        if field_usable(fields[i]) {
            assert forall|j: int| 0 <= j < one.len() implies field_usable(#[trigger] one[j]) by {
                assert(one[j] == fields[i]);
            }
        }
    }
}

// ---------------------------------------------------------------------
// Unique indexes.

/// Whether a value counts for a unique index: one that a filter can find equal,
/// and not null.
pub open spec fn counts(m: DocModel) -> bool {
    m is Bool || m is String || is_number(m)
}

proof fn lemma_counts(m: DocModel)
    ensures
        comparable(m) <==> counts(m),
{
    match m {
        DocModel::Int(n) => {
            crate::number::rounding_keeps_order(n, n);
        },
        _ => {},
    }
}

/// Whether a unique index finds two values equal.
pub open spec fn clash(a: DocModel, b: DocModel) -> bool {
    counts(a) && counts(b) && value_meets(Op::Eq, a, b)
}

/// Under a unique index on one field, two documents collide exactly if one of
/// the values that its path leads to in the one equals one of those in the
/// other, nulls left out.
pub proof fn equal_values_collide(a: DocModel, b: DocModel, index: IndexModel)
    requires
        index.fields.len() == 1,
    ensures
        documents_collide(a, b, index) <==> exists|i: int, j: int|
            #![trigger values_of(a, index.fields[0])[i], values_of(b, index.fields[0])[j]]
            0 <= i < values_of(a, index.fields[0]).len() && 0 <= j < values_of(
                b,
                index.fields[0],
            ).len() && clash(values_of(a, index.fields[0])[i], values_of(b, index.fields[0])[j]),
{
    let x = values_of(a, index.fields[0]);
    let y = values_of(b, index.fields[0]);
    if documents_collide(a, b, index) {
        let tuple = choose|tuple: Seq<DocModel>| #[trigger]
            has_tuple(b, index, tuple) && collides(a, index, tuple);
        let other = choose|other: Seq<DocModel>|
            has_tuple(a, index, other) && #[trigger] tuples_equal(other, tuple);
        let j = choose|j: int| 0 <= j < y.len() && comparable(#[trigger] y[j]) && tuple == seq![y[j]];
        let i = choose|i: int| 0 <= i < x.len() && comparable(#[trigger] x[i]) && other == seq![x[i]];
        lemma_counts(x[i]);
        lemma_counts(y[j]);
        assert(related(other[0], tuple[0]) == Some(Relation::Equal));
        assert(clash(x[i], y[j]));
    }
    if exists|i: int, j: int|
        #![trigger x[i], y[j]]
        0 <= i < x.len() && 0 <= j < y.len() && clash(x[i], y[j]) {
        let (i, j) = choose|i: int, j: int|
            #![trigger x[i], y[j]]
            0 <= i < x.len() && 0 <= j < y.len() && clash(x[i], y[j]);
        lemma_counts(x[i]);
        lemma_counts(y[j]);
        let other = seq![x[i]];
        let tuple = seq![y[j]];
        assert(has_tuple(a, index, other));
        assert(has_tuple(b, index, tuple));
        assert(tuples_equal(other, tuple));
        assert(collides(a, index, tuple));
    }
}

/// Under a unique index on several fields, two documents collide exactly if they
/// are equal in each of them, and null in none.
pub proof fn documents_equal_in_all_fields_collide(a: DocModel, b: DocModel, index: IndexModel)
    requires
        index.fields.len() > 1,
    ensures
        documents_collide(a, b, index) <==> forall|k: int|
            0 <= k < index.fields.len() ==> clash(
                value_of(a, #[trigger] index.fields[k]),
                value_of(b, index.fields[k]),
            ),
{
    let x = field_values_of(a, index);
    let y = field_values_of(b, index);
    if documents_collide(a, b, index) {
        let tuple = choose|tuple: Seq<DocModel>| #[trigger]
            has_tuple(b, index, tuple) && collides(a, index, tuple);
        let other = choose|other: Seq<DocModel>|
            has_tuple(a, index, other) && #[trigger] tuples_equal(other, tuple);
        assert forall|k: int| 0 <= k < index.fields.len() implies clash(
            value_of(a, #[trigger] index.fields[k]),
            value_of(b, index.fields[k]),
        ) by {
            assert(comparable(x[k]) && comparable(y[k]));
            lemma_counts(x[k]);
            lemma_counts(y[k]);
            assert(related(other[k], tuple[k]) == Some(Relation::Equal));
        }
    }
    if forall|k: int|
        0 <= k < index.fields.len() ==> clash(
            value_of(a, #[trigger] index.fields[k]),
            value_of(b, index.fields[k]),
        ) {
        assert forall|k: int| 0 <= k < x.len() implies comparable(#[trigger] x[k]) && comparable(
            y[k],
        ) && related(x[k], y[k]) == Some(Relation::Equal) by {
            assert(clash(value_of(a, index.fields[k]), value_of(b, index.fields[k])));
            lemma_counts(x[k]);
            lemma_counts(y[k]);
        }
        assert forall|k: int| 0 <= k < y.len() implies comparable(#[trigger] y[k]) by {
            assert(comparable(x[k]) && comparable(y[k]));
        }
        assert(has_tuple(a, index, x));
        assert(has_tuple(b, index, y));
        assert(tuples_equal(x, y));
        assert(collides(a, index, y));
    }
}

/// A write is refused exactly if, under some unique index, another document
/// collides with the one to be written.
pub proof fn a_write_is_refused_for_a_collision(
    held: Map<Seq<u8>, DocModel>,
    indexes: Seq<IndexModel>,
    id: Seq<u8>,
    doc: DocModel,
)
    ensures
        refused(held, indexes, id, doc) <==> exists|k: int, other: Seq<u8>|
            #![trigger indexes[k], held.dom().contains(other)]
            0 <= k < indexes.len() && indexes[k].unique && other != id && held.dom().contains(other)
                && documents_collide(held[other], doc, indexes[k]),
{
    if refused(held, indexes, id, doc) {
        let k = choose|k: int|
            0 <= k < indexes.len() && (#[trigger] indexes[k]).unique && would_conflict(
                held,
                indexes[k],
                id,
                doc,
            );
        let (other, tuple) = choose|other: Seq<u8>, tuple: Seq<DocModel>|
            other != id && held.dom().contains(other) && #[trigger] has_tuple(
                doc,
                indexes[k],
                tuple,
            ) && #[trigger] collides(held[other], indexes[k], tuple);
        assert(documents_collide(held[other], doc, indexes[k]));
    }
    if exists|k: int, other: Seq<u8>|
        #![trigger indexes[k], held.dom().contains(other)]
        0 <= k < indexes.len() && indexes[k].unique && other != id && held.dom().contains(other)
            && documents_collide(held[other], doc, indexes[k]) {
        let (k, other) = choose|k: int, other: Seq<u8>|
            #![trigger indexes[k], held.dom().contains(other)]
            0 <= k < indexes.len() && indexes[k].unique && other != id && held.dom().contains(other)
                && documents_collide(held[other], doc, indexes[k]);
        let tuple = choose|tuple: Seq<DocModel>| #[trigger]
            has_tuple(doc, indexes[k], tuple) && collides(held[other], indexes[k], tuple);
        assert(would_conflict(held, indexes[k], id, doc));
    }
}

// ---------------------------------------------------------------------
// Names.

/// An index on one field is named by it; one on several by all of them, in
/// order, with commas between and parentheses around them.
pub proof fn an_index_is_named_by_its_fields(
    field: Seq<char>,
    fields: Seq<Seq<char>>,
    more: Seq<Seq<char>>,
)
    ensures
        index_name(seq![field]) == field,
        fields.len() > 1 ==> index_name(fields) == seq!['('] + comma_list(fields) + seq![')'],
        fields.len() > 0 && more.len() > 0 ==> comma_list(fields + more) == comma_list(fields)
            + seq![',', ' '] + comma_list(more),
        comma_list(seq![field]) == field,
    decreases more.len(),
{
    reveal_strlit("(");
    reveal_strlit(")");
    reveal_strlit(", ");
    assert("("@ =~= seq!['(']);
    assert(")"@ =~= seq![')']);
    assert(", "@ =~= seq![',', ' ']);
    if fields.len() > 0 && more.len() > 0 {
        let all = fields + more;
        assert(all.last() == more.last());
        assert(all.drop_last() =~= fields + more.drop_last());
        if more.len() == 1 {
            assert(more.drop_last() =~= Seq::<Seq<char>>::empty());
            assert(all.drop_last() =~= fields);
        } else {
            an_index_is_named_by_its_fields(field, fields, more.drop_last());
            assert(comma_list(all) =~= comma_list(fields) + seq![',', ' '] + comma_list(more));
        }
    }
}

/// The unique indexes are listed in the order of all, each that is unique and no
/// other, and so are the sparse ones.
pub proof fn the_unique_indexes_are_listed(indexes: Seq<IndexModel>)
    ensures
        unique_names(indexes) == indexes.filter(|index: IndexModel| index.unique).map_values(
            |index: IndexModel| index_name(index.fields),
        ),
        sparse_names(indexes) == indexes.filter(|index: IndexModel| index.sparse).map_values(
            |index: IndexModel| index_name(index.fields),
        ),
    decreases indexes.len(),
{
    reveal(Seq::filter);
    let name = |index: IndexModel| index_name(index.fields);
    let unique = |index: IndexModel| index.unique;
    let sparse = |index: IndexModel| index.sparse;
    if indexes.len() > 0 {
        the_unique_indexes_are_listed(indexes.drop_last());
        let last = indexes.last();
        let less = indexes.drop_last();
        assert(less.filter(unique).push(last).map_values(name) =~= less.filter(unique).map_values(
            name,
        ).push(name(last)));
        assert(less.filter(sparse).push(last).map_values(name) =~= less.filter(sparse).map_values(
            name,
        ).push(name(last)));
    }
}

// ---------------------------------------------------------------------
// Making and dropping.

/// On a medium that works and has room, an index is made on any fields whose
/// names take no more than 255 bytes, of a collection that is there or has such
/// a name, unless it is to be unique and two documents collide.
pub proof fn a_good_index_is_made(
    e: Error,
    list: Seq<CollectionModel>,
    name: Seq<char>,
    held: Map<Seq<u8>, DocModel>,
    fields: Seq<Seq<char>>,
    options: IndexOptions,
)
    requires
        exists_in(list, name) || encode_utf8(name).len() < 256,
        forall|i: int| 0 <= i < fields.len() ==> encode_utf8(#[trigger] fields[i]).len() < 256,
        options.unique ==> held_apart(held, index_with(fields, 0, options)),
    ensures
        !build_error(e, list, name, held, fields, options, false),
{
}

/// Of an index that was made, every document was there before and is there
/// still, and the index is the last of those there were.
pub proof fn making_an_index_changes_no_document(
    before: Map<PageId, Seq<u8>>,
    list: Seq<CollectionModel>,
    after: Map<PageId, Seq<u8>>,
    now: Seq<CollectionModel>,
    name: Seq<char>,
    index: IndexModel,
    other: Seq<char>,
)
    requires
        index_built(before, list, after, now, name, index),
    ensures
        stored_in(after, now, other) == stored_in(before, list, other),
        indexes_of(now, name) == indexes_of(list, name) + seq![index],
        other != name ==> indexes_of(now, other) == indexes_of(list, other),
{
    assert(indexes_of(list, name).push(index) =~= indexes_of(list, name) + seq![index]);
}

/// A collection that was dropped holds nothing, has no index and isn't there, and
/// every other is as it was.
pub proof fn a_dropped_collection_is_gone(
    before: Map<PageId, Seq<u8>>,
    list: Seq<CollectionModel>,
    after: Map<PageId, Seq<u8>>,
    now: Seq<CollectionModel>,
    name: Seq<char>,
    other: Seq<char>,
)
    requires
        collection_dropped(before, list, after, now, name),
        other != name,
    ensures
        !exists_in(now, name),
        stored_in(after, now, name) == Map::<Seq<u8>, DocModel>::empty(),
        indexes_of(now, name) == Seq::<IndexModel>::empty(),
        stored_in(after, now, other) == stored_in(before, list, other),
        exists_in(now, other) <==> exists_in(list, other),
        indexes_of(now, other) == indexes_of(list, other),
{
    assert(meta_of(now, other) == meta_of(list, other));
}

/// A collection is found by its name, and an index by its fields.
pub proof fn collections_are_found_by_name(
    list: Seq<CollectionModel>,
    i: int,
    name: Seq<char>,
    indexes: Seq<IndexModel>,
    fields: Seq<Seq<char>>,
)
    ensures
        exists_in(list, name) <==> exists|j: int|
            0 <= j < list.len() && (#[trigger] list[j]).name == name,
        names_distinct(list) && 0 <= i < list.len() ==> indexes_of(list, list[i].name)
            == list[i].indexes && meta_of(list, list[i].name) == Some(list[i].meta),
        !exists_in(list, name) ==> indexes_of(list, name).len() == 0,
        index_position(indexes, fields) < indexes.len() <==> exists|j: int|
            0 <= j < indexes.len() && (#[trigger] indexes[j]).fields == fields,
        index_position(indexes, fields) < indexes.len() ==> indexes[index_position(
            indexes,
            fields,
        ) as int].fields == fields,
{
    lemma_position(list, name);
    lemma_index_position(indexes, fields);
    if 0 <= i < list.len() {
        lemma_position(list, list[i].name);
        if names_distinct(list) {
            let k = position(list, list[i].name) as int;
            if k < i {
                assert(list[k].name != list[i].name);
            } else if k > i {
                assert(list[i].name != list[i].name);
            }
        }
    }
    if exists_in(list, name) {
        assert(list[position(list, name) as int].name == name);
    }
}

} // verus!

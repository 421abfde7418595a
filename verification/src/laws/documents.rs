//! When documents are equal, how deep they nest, and how they read as JSON.

use crate::document::{distinct_keys, doc_equal, lookup, tag_like, within, DocModel};
use crate::json::{doc_of, json_of, looks_tagged, JsonModel};
use crate::number::{nan, rank};
use super::writing::a_field_is_found_by_its_name;
use vstd::prelude::*;

verus! {

// ---------------------------------------------------------------------
// Equality.

/// Values without fields or elements are equal exactly if they are the same;
/// floats if they are the same number, which is never so of what is no number.
pub proof fn equal_values_are_the_same(a: DocModel, b: DocModel)
    requires
        !(a is Array) && !(a is Object),
    ensures
        doc_equal(a, b) <==> match (a, b) {
            (DocModel::Float(x), DocModel::Float(y)) => !nan(x) && !nan(y) && rank(x) == rank(y),
            _ => a == b,
        },
{
}

/// Arrays are equal exactly if they are equal element by element.
pub proof fn equal_arrays_have_equal_elements(
    x: Seq<DocModel>,
    y: Seq<DocModel>,
    a: DocModel,
    b: DocModel,
)
    ensures
        doc_equal(DocModel::Array(x.push(a)), DocModel::Array(y.push(b))) <==> doc_equal(
            DocModel::Array(x),
            DocModel::Array(y),
        ) && doc_equal(a, b),
        doc_equal(DocModel::Array(Seq::empty()), DocModel::Array(y)) <==> y.len() == 0,
        doc_equal(DocModel::Array(x), b) ==> b is Array,
{
    reveal_with_fuel(doc_equal, 3);
    let more = x.push(a);
    let other = y.push(b);
    if doc_equal(DocModel::Array(more), DocModel::Array(other)) {
        assert forall|i: int| 0 <= i < x.len() implies doc_equal(#[trigger] x[i], y[i]) by {
            assert(more[i] == x[i] && other[i] == y[i]);
        }
        assert(more[x.len() as int] == a);
    }
    if doc_equal(DocModel::Array(x), DocModel::Array(y)) && doc_equal(a, b) {
        assert forall|i: int| 0 <= i < more.len() implies doc_equal(
            #[trigger] more[i],
            other[i],
        ) by {
            if i < x.len() {
                assert(more[i] == x[i] && other[i] == y[i]);
            }
        }
    }
}

/// Objects are equal exactly if they have the same fields, with equal values,
/// in whatever order.
pub proof fn equal_objects_have_equal_fields(
    x: Seq<(Seq<char>, DocModel)>,
    y: Seq<(Seq<char>, DocModel)>,
)
    requires
        distinct_keys(x),
        distinct_keys(y),
    ensures
        doc_equal(DocModel::Object(x), DocModel::Object(y)) <==> x.len() == y.len() && forall|
            i: int,
        |
            0 <= i < x.len() ==> exists|j: int|
                0 <= j < y.len() && (#[trigger] y[j]).0 == (#[trigger] x[i]).0 && doc_equal(
                    x[i].1,
                    y[j].1,
                ),
{
    reveal_with_fuel(doc_equal, 3);
    if doc_equal(DocModel::Object(x), DocModel::Object(y)) {
        assert forall|i: int| 0 <= i < x.len() implies exists|j: int|
            0 <= j < y.len() && (#[trigger] y[j]).0 == (#[trigger] x[i]).0 && doc_equal(
                x[i].1,
                y[j].1,
            ) by {
            assert(lookup(y, x[i].0) is Some);
            a_field_is_found_by_its_name(y, x[i].0, 0);
            let j = choose|j: int| 0 <= j < y.len() && (#[trigger] y[j]).0 == x[i].0;
            a_field_is_found_by_its_name(y, x[i].0, j);
            assert(y[j].0 == x[i].0 && doc_equal(x[i].1, y[j].1));
        }
    }
    if x.len() == y.len() && forall|i: int|
        0 <= i < x.len() ==> exists|j: int|
            0 <= j < y.len() && (#[trigger] y[j]).0 == (#[trigger] x[i]).0 && doc_equal(
                x[i].1,
                y[j].1,
            ) {
        assert forall|i: int| 0 <= i < x.len() implies lookup(y, (#[trigger] x[i]).0) is Some
            && doc_equal(x[i].1, lookup(y, x[i].0)->Some_0) by {
            let j = choose|j: int|
                0 <= j < y.len() && (#[trigger] y[j]).0 == x[i].0 && doc_equal(x[i].1, y[j].1);
            a_field_is_found_by_its_name(y, x[i].0, j);
        }
    }
}

// ---------------------------------------------------------------------
// Nesting.

/// A value in an array or in an object is one level deeper; in an object that an
/// export writes inside a tag, two. Without anything in it, it nests one deep,
/// and what holds nothing doesn't nest.
pub proof fn what_holds_a_value_nests_deeper(
    m: DocModel,
    items: Seq<DocModel>,
    entries: Seq<(Seq<char>, DocModel)>,
    name: Seq<char>,
    levels: int,
)
    ensures
        !(m is Array) && !(m is Object) ==> within(m, levels),
        within(DocModel::Array(Seq::empty()), levels) <==> levels >= 1,
        within(DocModel::Object(Seq::empty()), levels) <==> levels >= 1,
        within(DocModel::Array(items.push(m)), levels) <==> within(DocModel::Array(items), levels)
            && within(m, levels - 1),
        !tag_like(entries) && !tag_like(entries.push((name, m))) ==> (within(
            DocModel::Object(entries.push((name, m))),
            levels,
        ) <==> within(DocModel::Object(entries), levels) && within(m, levels - 1)),
        tag_like(seq![(name, m)]) ==> (within(DocModel::Object(seq![(name, m)]), levels)
            <==> levels >= 2 && within(m, levels - 2)),
{
    let more = items.push(m);
    let short = DocModel::Array(items);
    let long = DocModel::Array(more);
    lemma_array_within(short, levels);
    lemma_array_within(long, levels);
    assert(short->Array_0 == items && long->Array_0 == more);
    if within(DocModel::Array(more), levels) {
        assert forall|i: int| 0 <= i < items.len() implies within(
            #[trigger] items[i],
            levels - 1,
        ) by {
            assert(within(long->Array_0[i], levels - 1));
        }
        assert(within(long->Array_0[items.len() as int], levels - 1));
    }
    if within(DocModel::Array(items), levels) && within(m, levels - 1) {
        assert forall|i: int| 0 <= i < more.len() implies within(#[trigger] more[i], levels - 1) by {
            if i < items.len() {
                assert(more[i] == items[i]);
            } else {
                assert(more[i] == m);
            }
        }
        assert(within(DocModel::Array(more), levels));
    }
    assert(!tag_like(Seq::<(Seq<char>, DocModel)>::empty()));
    let all = entries.push((name, m));
    lemma_object_within(DocModel::Object(entries), levels);
    lemma_object_within(DocModel::Object(all), levels);
    lemma_object_within(DocModel::Object(seq![(name, m)]), levels);
    if !tag_like(entries) && !tag_like(all) {
        if within(DocModel::Object(all), levels) {
            assert forall|i: int| 0 <= i < entries.len() implies within(
                #[trigger] entries[i].1,
                levels - 1,
            ) by {
                assert(within(all[i].1, levels - 1));
            }
            assert(within(all[entries.len() as int].1, levels - 1));
        }
        if within(DocModel::Object(entries), levels) && within(m, levels - 1) {
            assert forall|i: int| 0 <= i < all.len() implies within(
                #[trigger] all[i].1,
                levels - 1,
            ) by {
                if i < entries.len() {
                    assert(all[i] == entries[i]);
                }
            }
        }
    }
    let one = seq![(name, m)];
    if tag_like(one) {
        assert(one[0].1 == m);
    }
}

/// An object that an export writes inside a tag, with its `_id` or without it,
/// takes two levels, and everything in it is below both.
pub proof fn an_object_inside_a_tag_takes_two_levels(
    entries: Seq<(Seq<char>, DocModel)>,
    levels: int,
)
    requires
        tag_like(entries),
    ensures
        within(DocModel::Object(entries), levels) <==> levels >= 2 && forall|i: int|
            0 <= i < entries.len() ==> within((#[trigger] entries[i]).1, levels - 2),
{
    let m = DocModel::Object(entries);
    lemma_object_within(m, levels);
    assert(m->Object_0 == entries);
    if within(m, levels) {
        assert forall|i: int| 0 <= i < entries.len() implies within(
            (#[trigger] entries[i]).1,
            levels - 2,
        ) by {
            assert(within(m->Object_0[i].1, levels - 2));
        }
    }
}

proof fn lemma_array_within(m: DocModel, levels: int)
    requires
        m is Array,
    ensures
        within(m, levels) <==> levels >= 1 && forall|i: int|
            0 <= i < m->Array_0.len() ==> within(#[trigger] m->Array_0[i], levels - 1),
{
}

proof fn lemma_object_within(m: DocModel, levels: int)
    requires
        m is Object,
    ensures
        !tag_like(m->Object_0) ==> (within(m, levels) <==> levels >= 1 && forall|i: int|
            0 <= i < m->Object_0.len() ==> within(#[trigger] m->Object_0[i].1, levels - 1)),
        tag_like(m->Object_0) ==> (within(m, levels) <==> levels >= 2 && forall|i: int|
            0 <= i < m->Object_0.len() ==> within(#[trigger] m->Object_0[i].1, levels - 2)),
{
}

// ---------------------------------------------------------------------
// JSON.

/// Plain JSON reads as itself: null, booleans, texts and numbers, of the whole
/// ones those that fit.
pub proof fn plain_json_reads_as_itself(b: bool, n: i64, u: u64, f: u64, s: Seq<char>)
    ensures
        doc_of(JsonModel::Null) == Some(DocModel::Null),
        doc_of(JsonModel::Bool(b)) == Some(DocModel::Bool(b)),
        doc_of(JsonModel::Int(n)) == Some(DocModel::Int(n)),
        doc_of(JsonModel::UInt(u)) is Some <==> u < 0x8000_0000_0000_0000,
        doc_of(JsonModel::UInt(u)) matches Some(m) ==> m matches DocModel::Int(k) && k == u,
        doc_of(JsonModel::Float(f)) == Some(DocModel::Float(f)),
        doc_of(JsonModel::String(s)) == Some(DocModel::String(s)),
{
}

/// A JSON array reads element by element: it stands for an array if each element
/// stands for a value, and then for the array of those.
pub proof fn a_json_array_reads_element_by_element(items: Seq<JsonModel>, i: int)
    ensures
        doc_of(JsonModel::Array(items)) is Some <==> forall|j: int|
            0 <= j < items.len() ==> doc_of(#[trigger] items[j]) is Some,
        doc_of(JsonModel::Array(items)) matches Some(m) ==> m matches DocModel::Array(read)
            && read.len() == items.len() && (0 <= i < items.len() ==> Some(read[i]) == doc_of(
            items[i],
        )),
{
    reveal_with_fuel(doc_of, 3);
}

/// A JSON object without a name that begins with `$` reads field by field, in
/// its order.
pub proof fn a_json_object_reads_field_by_field(entries: Seq<(Seq<char>, JsonModel)>, i: int)
    requires
        forall|j: int|
            0 <= j < entries.len() ==> (#[trigger] entries[j]).0.len() == 0 || entries[j].0[0]
                != '$',
    ensures
        doc_of(JsonModel::Object(entries)) is Some <==> forall|j: int|
            0 <= j < entries.len() ==> doc_of((#[trigger] entries[j]).1) is Some,
        doc_of(JsonModel::Object(entries)) matches Some(m) ==> m matches DocModel::Object(read)
            && read.len() == entries.len() && (0 <= i < entries.len() ==> read[i].0 == entries[i].0
            && Some(read[i].1) == doc_of(entries[i].1)),
{
    reveal_with_fuel(doc_of, 3);
    lemma_no_tag(entries);
}

proof fn lemma_no_tag<T>(entries: Seq<(Seq<char>, T)>)
    requires
        forall|j: int|
            0 <= j < entries.len() ==> (#[trigger] entries[j]).0.len() == 0 || entries[j].0[0]
                != '$',
    ensures
        !looks_tagged(entries),
{
    if entries.len() == 1 {
        let name = entries[0].0;
        reveal_strlit("$id");
        reveal_strlit("$binary");
        reveal_strlit("$float");
        reveal_strlit("$object");
        reveal_strlit("$value");
        assert(name.len() == 0 || name[0] != '$');
    }
}

/// A document without a name that begins with `$` is written field by field, in
/// its order; and whatever a text, a number or a boolean is, that is written.
pub proof fn documents_are_written_as_they_are(
    items: Seq<DocModel>,
    entries: Seq<(Seq<char>, DocModel)>,
    i: int,
    n: i64,
    b: bool,
    s: Seq<char>,
)
    requires
        forall|j: int|
            0 <= j < entries.len() ==> (#[trigger] entries[j]).0.len() == 0 || entries[j].0[0]
                != '$',
    ensures
        json_of(DocModel::Null) == JsonModel::Null,
        json_of(DocModel::Bool(b)) == JsonModel::Bool(b),
        json_of(DocModel::Int(n)) == JsonModel::Int(n),
        json_of(DocModel::String(s)) == JsonModel::String(s),
        json_of(DocModel::Array(items)) matches JsonModel::Array(texts) && texts.len()
            == items.len() && (0 <= i < items.len() ==> texts[i] == json_of(items[i])),
        json_of(DocModel::Object(entries)) matches JsonModel::Object(texts) && texts.len()
            == entries.len() && (0 <= i < entries.len() ==> texts[i].0 == entries[i].0
            && texts[i].1 == json_of(entries[i].1)),
{
    reveal_with_fuel(json_of, 3);
    lemma_no_tag(entries);
}

/// A float is written as a number if it is one and finite; what is no number,
/// and the infinities, by their names.
pub proof fn floats_are_written_as_numbers_or_by_name(f: u64)
    ensures
        nan(f) ==> json_of(DocModel::Float(f)) == JsonModel::Object(
            seq![("$float"@, JsonModel::String("NaN"@))],
        ),
        rank(f) == 0x7FF0_0000_0000_0000 ==> json_of(DocModel::Float(f)) == JsonModel::Object(
            seq![("$float"@, JsonModel::String("Infinity"@))],
        ),
        rank(f) == -0x7FF0_0000_0000_0000 ==> json_of(DocModel::Float(f)) == JsonModel::Object(
            seq![("$float"@, JsonModel::String("-Infinity"@))],
        ),
        -0x7FF0_0000_0000_0000 < rank(f) < 0x7FF0_0000_0000_0000 ==> json_of(DocModel::Float(f))
            == JsonModel::Float(f),
{
}

} // verus!

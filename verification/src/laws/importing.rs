//! What an import reads.

use super::writing::a_field_is_found_by_its_name;
use crate::document::{
    distinct_keys, entry_position, is_tag_name, lemma_entry_position, lookup, tag_like, DocModel,
};
use crate::export::{
    header_version, is_collection_line, item_texts, parsed_header, parsed_index, HeaderModel,
    IndexLineModel,
};
use crate::id::parsed_id;
use crate::json::{doc_of, looks_tagged, object_doc, only_other, parsed_line, JsonModel};
use vstd::prelude::*;

verus! {

// ---------------------------------------------------------------------
// Documents.

/// Whether no name begins with `$`.
pub open spec fn no_dollar_names(entries: Seq<(Seq<char>, JsonModel)>) -> bool {
    forall|i: int|
        0 <= i < entries.len() ==> (#[trigger] entries[i]).0.len() == 0 || entries[i].0[0] != '$'
}

proof fn lemma_dollars()
    ensures
        "$id"@.len() == 3 && "$id"@[0] == '$',
        "$binary"@.len() == 7 && "$binary"@[0] == '$',
        "$float"@.len() == 6 && "$float"@[0] == '$',
        "$object"@.len() == 7 && "$object"@[0] == '$',
        "$value"@.len() == 6 && "$value"@[0] == '$',
        "$collection"@.len() == 11 && "$collection"@[0] == '$',
        "$indexes"@.len() == 8 && "$indexes"@[0] == '$',
        "_id"@.len() == 3 && "_id"@[0] == '_',
{
    reveal_strlit("$id");
    reveal_strlit("$binary");
    reveal_strlit("$float");
    reveal_strlit("$object");
    reveal_strlit("$value");
    reveal_strlit("$collection");
    reveal_strlit("$indexes");
    reveal_strlit("_id");
}

/// A line without names that begin with `$` is a document as plain JSON is, and
/// no collection's; its `_id`, if it has one, has to be an id and is the
/// document's.
pub proof fn a_plain_line_is_its_document(entries: Seq<(Seq<char>, JsonModel)>)
    requires
        distinct_keys(entries),
        no_dollar_names(entries),
    ensures
        !is_collection_line(JsonModel::Object(entries)),
        (forall|i: int| 0 <= i < entries.len() ==> (#[trigger] entries[i]).0 != "_id"@)
            ==> parsed_line(JsonModel::Object(entries)) == match doc_of(JsonModel::Object(entries)) {
            Some(doc) => Some((None::<Seq<u8>>, doc)),
            None => None,
        },
        forall|i: int|
            0 <= i < entries.len() && (#[trigger] entries[i]).0 == "_id"@ ==> parsed_line(
                JsonModel::Object(entries),
            ) == match (doc_of(entries[i].1), doc_of(JsonModel::Object(entries))) {
                (Some(DocModel::Id(id)), Some(doc)) => Some((Some(id), doc)),
                _ => None,
            },
{
    lemma_dollars();
    let j = JsonModel::Object(entries);
    lemma_entry_position(entries, "_id"@);
    lemma_entry_position(entries, "$collection"@);
    assert(!looks_tagged(entries)) by {
        if entries.len() == 1 {
            assert(entries[0].0.len() == 0 || entries[0].0[0] != '$');
        }
    }
    if lookup(entries, "$collection"@) is Some {
        let k = entry_position(entries, "$collection"@);
        assert(entries[k].0 == "$collection"@);
    }
    match only_other(entries) {
        Some(i) => {
            let k = choose|i: int|
                0 <= i < entries.len() && (#[trigger] entries[i]).0 != "_id"@ && (forall|j: int|
                    0 <= j < entries.len() && j != i ==> (#[trigger] entries[j]).0 == "_id"@);
            assert(entries[k].0.len() == 0 || entries[k].0[0] != '$');
        },
        None => {},
    }
    assert(doc_of(j) == object_doc(j));
    assert forall|i: int| 0 <= i < entries.len() && (#[trigger] entries[i]).0
        == "_id"@ implies lookup(entries, "_id"@) == Some(entries[i].1) by {
        a_field_is_found_by_its_name(entries, "_id"@, i);
    }
}

/// An id in a line is written as its text inside a tag.
pub proof fn an_id_is_read_from_its_tag(text: Seq<char>)
    ensures
        doc_of(JsonModel::Object(seq![("$id"@, JsonModel::String(text))])) == match parsed_id(
            text,
        ) {
            Some(id) => Some(DocModel::Id(id)),
            None => None,
        },
{
    let entries = seq![("$id"@, JsonModel::String(text))];
    assert(looks_tagged(entries));
    reveal_with_fuel(doc_of, 2);
}

/// A tag holds what its name says, and any other value is refused: a text for an
/// id, bytes and a float, an object for an object. The one for a whole document
/// that is no object is refused within one.
pub proof fn a_tag_with_another_value_is_refused(tag: Seq<char>, value: JsonModel)
    requires
        is_tag_name(tag),
        tag == "$object"@ ==> !(value is Object),
        tag != "$object"@ && tag != "$value"@ ==> !(value is String),
    ensures
        doc_of(JsonModel::Object(seq![(tag, value)])) is None,
{
    lemma_tags_differ();
    let entries = seq![(tag, value)];
    assert(looks_tagged(entries));
    reveal_with_fuel(doc_of, 2);
}

proof fn lemma_tags_differ()
    ensures
        "$object"@ != "$id"@ && "$object"@ != "$binary"@ && "$object"@ != "$float"@,
        "$value"@ != "$id"@ && "$value"@ != "$binary"@ && "$value"@ != "$float"@ && "$value"@
            != "$object"@,
{
    reveal_strlit("$id");
    reveal_strlit("$binary");
    reveal_strlit("$float");
    reveal_strlit("$object");
    reveal_strlit("$value");
    assert("$value"@[1] == 'v' && "$float"@[1] == 'f' && "$object"@[1] == 'o' && "$binary"@[1]
        == 'b' && "$id"@[1] == 'i');
}

/// An object is written inside a tag exactly if one field is all it has besides
/// `_id`, and that field has the name of a tag.
pub proof fn objects_that_look_like_tags<T>(name: Seq<char>, value: T, id: T, other: (Seq<char>, T))
    requires
        name != "_id"@,
        other.0 != "_id"@,
        other.0 != name,
    ensures
        tag_like(seq![(name, value)]) <==> is_tag_name(name),
        tag_like(seq![("_id"@, id), (name, value)]) <==> is_tag_name(name),
        tag_like(seq![(name, value), ("_id"@, id)]) <==> is_tag_name(name),
        !tag_like(seq![(name, value), other]),
        !tag_like(seq![("_id"@, id)]),
        !tag_like(Seq::<(Seq<char>, T)>::empty()),
        is_tag_name(name) <==> [
            "$id"@,
            "$binary"@,
            "$float"@,
            "$object"@,
            "$value"@,
        ]@.contains(name),
{
    let one = seq![(name, value)];
    let front = seq![("_id"@, id), (name, value)];
    let back = seq![(name, value), ("_id"@, id)];
    let two = seq![(name, value), other];
    assert(one[0].0 == name && front[1].0 == name && back[0].0 == name);
    assert(front[0].0 == "_id"@ && back[1].0 == "_id"@);
    assert(two[0].0 == name && two[1].0 == other.0);
    let names = ["$id"@, "$binary"@, "$float"@, "$object"@, "$value"@]@;
    assert(names[0] == "$id"@ && names[1] == "$binary"@ && names[2] == "$float"@ && names[3]
        == "$object"@ && names[4] == "$value"@ && names.len() == 5);
    if tag_like(front) {
        let i = choose|i: int|
            0 <= i < front.len() && is_tag_name(#[trigger] front[i].0) && front[i].0 != "_id"@ && (
            forall|j: int| 0 <= j < front.len() && j != i ==> #[trigger] front[j].0 == "_id"@);
        assert(i == 1);
    }
    if tag_like(back) {
        let i = choose|i: int|
            0 <= i < back.len() && is_tag_name(#[trigger] back[i].0) && back[i].0 != "_id"@ && (
            forall|j: int| 0 <= j < back.len() && j != i ==> #[trigger] back[j].0 == "_id"@);
        assert(i == 0);
    }
    if tag_like(two) {
        let i = choose|i: int|
            0 <= i < two.len() && is_tag_name(#[trigger] two[i].0) && two[i].0 != "_id"@ && (forall|
                j: int,
            |
                0 <= j < two.len() && j != i ==> #[trigger] two[j].0 == "_id"@);
        assert(two[1 - i].0 == "_id"@);
    }
}

// ---------------------------------------------------------------------
// Collections and their indexes.

/// An index is read from one field, from a list of fields, or from an object
/// that names them; whatever else is in an object is refused.
pub proof fn an_index_is_read_from_its_fields(
    field: Seq<char>,
    fields: Seq<Seq<char>>,
    entries: Seq<(Seq<char>, JsonModel)>,
    i: int,
)
    ensures
        parsed_index(JsonModel::String(field)) == Some(
            IndexLineModel { fields: seq![field], unique: false, sparse: false },
        ),
        parsed_index(
            JsonModel::Array(Seq::new(fields.len(), |k: int| JsonModel::String(fields[k]))),
        ) == Some(IndexLineModel { fields, unique: false, sparse: false }),
        0 <= i < entries.len() && entries[i].0 != "field"@ && entries[i].0 != "fields"@
            && entries[i].0 != "unique"@ && entries[i].0 != "sparse"@ ==> parsed_index(
            JsonModel::Object(entries),
        ) is None,
        parsed_index(JsonModel::Null) is None,
{
    let items = Seq::new(fields.len(), |k: int| JsonModel::String(fields[k]));
    assert(item_texts(items) =~= fields);
}

/// What an object says of an index is on or off, off if it isn't said, and
/// nothing else; and the fields are named once.
pub proof fn an_index_is_read_from_its_object(
    field: Seq<char>,
    value: JsonModel,
    list: Seq<JsonModel>,
)
    ensures
        parsed_index(JsonModel::Object(seq![("field"@, JsonModel::String(field))])) == Some(
            IndexLineModel { fields: seq![field], unique: false, sparse: false },
        ),
        parsed_index(
            JsonModel::Object(seq![("field"@, JsonModel::String(field)), ("unique"@, value)]),
        ) == match value {
            JsonModel::Bool(on) => Some(
                IndexLineModel { fields: seq![field], unique: on, sparse: false },
            ),
            _ => None,
        },
        parsed_index(
            JsonModel::Object(seq![("field"@, JsonModel::String(field)), ("sparse"@, value)]),
        ) == match value {
            JsonModel::Bool(on) => Some(
                IndexLineModel { fields: seq![field], unique: false, sparse: on },
            ),
            _ => None,
        },
        parsed_index(
            JsonModel::Object(
                seq![("field"@, JsonModel::String(field)), ("fields"@, JsonModel::Array(list))],
            ),
        ) is None,
        parsed_index(JsonModel::Object(seq![("unique"@, value)])) is None,
{
    reveal_strlit("field");
    reveal_strlit("fields");
    reveal_strlit("unique");
    reveal_strlit("sparse");
    assert("field"@[0] == 'f' && "unique"@[0] == 'u' && "sparse"@[0] == 's');
    assert("field"@.len() == 5 && "fields"@.len() == 6);
    let text = ("field"@, JsonModel::String(field));
    lemma_at_most_two(seq![text], text, text);
    lemma_at_most_two(seq![text, ("unique"@, value)], text, ("unique"@, value));
    lemma_at_most_two(seq![text, ("sparse"@, value)], text, ("sparse"@, value));
    lemma_at_most_two(
        seq![text, ("fields"@, JsonModel::Array(list))],
        text,
        ("fields"@, JsonModel::Array(list)),
    );
    lemma_at_most_two(seq![("unique"@, value)], ("unique"@, value), ("unique"@, value));
}

/// What one or two entries say.
proof fn lemma_at_most_two(
    entries: Seq<(Seq<char>, JsonModel)>,
    first: (Seq<char>, JsonModel),
    second: (Seq<char>, JsonModel),
)
    requires
        entries == seq![first] || (entries == seq![first, second] && first.0 != second.0),
    ensures
        lookup(entries, first.0) == Some(first.1),
        entries.len() == 2 ==> lookup(entries, second.0) == Some(second.1),
        forall|key: Seq<char>|
            key != first.0 && (entries.len() == 2 ==> key != second.0) ==> (#[trigger] lookup(
                entries,
                key,
            )) is None,
        forall|i: int|
            0 <= i < entries.len() ==> (#[trigger] entries[i]).0 == first.0 || entries[i].0
                == second.0,
{
    assert(entries[0] == first);
    if entries.len() == 2 {
        assert(entries[1] == second);
    }
    assert forall|i: int, j: int| 0 <= i < j < entries.len() implies (#[trigger] entries[i]).0 != (
    #[trigger] entries[j]).0 by {}
    a_field_is_found_by_its_name(entries, first.0, 0);
    if entries.len() == 2 {
        a_field_is_found_by_its_name(entries, second.0, 1);
    }
    assert forall|key: Seq<char>|
        key != first.0 && (entries.len() == 2 ==> key != second.0) implies (#[trigger] lookup(
        entries,
        key,
    )) is None by {
        a_field_is_found_by_its_name(entries, key, 0);
    }
}

/// A line that names a collection and nothing else is that collection without
/// indexes; a name that a collection's line doesn't have is refused.
pub proof fn a_collection_line_names_its_collection(
    name: Seq<char>,
    entries: Seq<(Seq<char>, JsonModel)>,
    i: int,
)
    ensures
        is_collection_line(JsonModel::Object(seq![("$collection"@, JsonModel::String(name))])),
        parsed_header(JsonModel::Object(seq![("$collection"@, JsonModel::String(name))])) == Some(
            HeaderModel { name, indexes: seq![] },
        ),
        0 <= i < entries.len() && entries[i].0 != "$collection"@ && entries[i].0 != "$indexes"@
            ==> parsed_header(JsonModel::Object(entries)) is None,
{
    lemma_dollars();
    let one = seq![("$collection"@, JsonModel::String(name))];
    lemma_entry_position(one, "$collection"@);
    lemma_entry_position(one, "$indexes"@);
    lemma_entry_position(one, "_id"@);
    assert(one[0].0 == "$collection"@);
    assert("$collection"@.len() != "$indexes"@.len());
    if entry_position(one, "$collection"@) != 0 {
        assert(one[0].0 != "$collection"@);
    }
}

/// A first line is an object with one name, whose value is a whole number, not
/// below zero: the version.
pub proof fn a_first_line_names_its_version(n: u64, k: i64, entries: Seq<(Seq<char>, JsonModel)>)
    ensures
        header_version(JsonModel::Object(seq![("$trunkdb_export"@, JsonModel::UInt(n))])) == Some(n),
        header_version(JsonModel::Object(seq![("$trunkdb_export"@, JsonModel::Int(k))])) == if k
            >= 0 {
            Some(k as u64)
        } else {
            None
        },
        entries.len() != 1 ==> header_version(JsonModel::Object(entries)) is None,
{
    let a = seq![("$trunkdb_export"@, JsonModel::UInt(n))];
    let b = seq![("$trunkdb_export"@, JsonModel::Int(k))];
    assert(a[0].0 == "$trunkdb_export"@ && b[0].0 == "$trunkdb_export"@);
}

} // verus!

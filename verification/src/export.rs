//! Export and import: the whole database as JSON Lines.
//!
//! ```text
//! {"$trunkdb_export":1}
//! {"$collection":"users","$indexes":["age"]}
//! {"name":"Ada","age":36,"_id":{"$id":"0199…"}}
//! {"$collection":"pings","$indexes":[]}
//! …
//! ```
//!
//! One header line, then for each collection a line naming it and its
//! indexes, followed by its documents, one per line, in tagged JSON.

use crate::catalog::entry::{texts, IndexModel, IndexOptions};
use crate::catalog::{
    exists_in, indexes_of, lemma_position, meta_of, position, Catalog, CollectionMeta,
    CollectionModel, IndexMeta,
};
use crate::check::{names_ascending, sorted_names};
use crate::collection::apply::stored_in;
use crate::collection::maintain::copy_text;
use crate::collection::state::{
    collection_sound, entries_at, lemma_tree_facts, record_owned, records_owned, sound, sound_with,
    Owners,
};
use crate::data::{get_record, record_at};
use crate::document::{lemma_position_is, lookup, DocId, DocModel};
use crate::error::Error;
use crate::index::btree::BTreeIndex;
use crate::index::entries::{key_position, lemma_has_key, lemma_key_position};
use crate::index::node;
use crate::index::Index;
use crate::json::{
    document_complaint, document_line, entry_models, find_name, json_models, json_valid,
    lemma_json_array, lemma_json_object, line_of, parse_document_line, parsed_line, Json,
    JsonModel,
};
use crate::lines::{blank, is_blank, json_part, json_text, parse_json, text_part};
use crate::order::bytes_lt;
use crate::storage::{PageId, PageStore};
use crate::text::{decimal, decimal_text, join, joined, quoted, quoted_text, str_equal};
use crate::txn::WriteOp;
use vstd::prelude::*;
use vstd::string::StringExecFns;
use vstd::utf8::encode_utf8;

verus! {

/// The version of the export format itself, which doesn't depend on the file
/// format.
pub const EXPORT_VERSION: u64 = 1;

/// An import writes a batch at most this many documents...
pub const CHUNK_DOCUMENTS: usize = 1000;

/// ...or about this many bytes of JSON, whichever comes first: a batch holds
/// every page it changes in memory until it commits.
pub const CHUNK_BYTES: usize = 0x80_0000;

/// What an export wrote or an import read.
#[derive(Debug, Clone, Copy, PartialEq, Eq, Structural)]
pub struct Summary {
    pub collections: usize,
    pub documents: usize,
}

impl Default for Summary {
    fn default() -> (s: Summary)
        ensures
            s.collections == 0,
            s.documents == 0,
    {
        Summary { collections: 0, documents: 0 }
    }
}

/// An index as a collection line names it.
#[derive(Debug)]
pub struct IndexLine {
    pub fields: Vec<String>,
    pub options: IndexOptions,
}

/// What a collection line says of an index.
#[verifier::ext_equal]
pub ghost struct IndexLineModel {
    pub fields: Seq<Seq<char>>,
    pub unique: bool,
    pub sparse: bool,
}

impl View for IndexLine {
    type V = IndexLineModel;

    open spec fn view(&self) -> IndexLineModel {
        IndexLineModel {
            fields: texts(self.fields@),
            unique: self.options.unique,
            sparse: self.options.sparse,
        }
    }
}

/// What a stored index is, on a collection line.
pub open spec fn line_model(index: IndexModel) -> IndexLineModel {
    IndexLineModel { fields: index.fields, unique: index.unique, sparse: index.sparse }
}

/// Whether a value is a list of texts.
pub open spec fn all_texts(items: Seq<JsonModel>) -> bool {
    forall|i: int| 0 <= i < items.len() ==> (#[trigger] items[i]) is String
}

/// The texts of a list of them.
pub open spec fn item_texts(items: Seq<JsonModel>) -> Seq<Seq<char>> {
    Seq::new(items.len(), |i: int| items[i]->String_0)
}

/// An index's fields: one as a text, several as a list.
pub open spec fn fields_json(fields: Seq<Seq<char>>) -> JsonModel {
    if fields.len() == 1 {
        JsonModel::String(fields[0])
    } else {
        JsonModel::Array(Seq::new(fields.len(), |i: int| JsonModel::String(fields[i])))
    }
}

/// The entry for an option that is set.
pub open spec fn option_entry(name: Seq<char>, on: bool) -> Seq<(Seq<char>, JsonModel)> {
    if on {
        seq![(name, JsonModel::Bool(true))]
    } else {
        seq![]
    }
}

/// What an index's fields are under.
pub open spec fn fields_name(fields: Seq<Seq<char>>) -> Seq<char> {
    if fields.len() == 1 {
        "field"@
    } else {
        "fields"@
    }
}

/// An index on a collection line: a plain one as its field or its list of
/// fields, any other as an object.
pub open spec fn index_json(index: IndexLineModel) -> JsonModel {
    if !index.unique && !index.sparse {
        fields_json(index.fields)
    } else {
        JsonModel::Object(
            seq![(fields_name(index.fields), fields_json(index.fields))] + option_entry(
                "unique"@,
                index.unique,
            ) + option_entry("sparse"@, index.sparse),
        )
    }
}

/// The fields that a value names.
pub open spec fn parsed_fields(j: JsonModel) -> Option<Seq<Seq<char>>> {
    match j {
        JsonModel::String(field) => Some(seq![field]),
        JsonModel::Array(items) => if all_texts(items) {
            Some(item_texts(items))
        } else {
            None
        },
        _ => None,
    }
}

/// The fields that an object names: one under `field`, or several under
/// `fields`.
pub open spec fn named_fields(entries: Seq<(Seq<char>, JsonModel)>) -> Option<Seq<Seq<char>>> {
    match (lookup(entries, "field"@), lookup(entries, "fields"@)) {
        (Some(JsonModel::String(field)), None) => Some(seq![field]),
        (None, Some(JsonModel::Array(items))) => parsed_fields(JsonModel::Array(items)),
        _ => None,
    }
}

/// Whether an option is set, off if it isn't there.
pub open spec fn parsed_option(entries: Seq<(Seq<char>, JsonModel)>, name: Seq<char>) -> Option<
    bool,
> {
    match lookup(entries, name) {
        None => Some(false),
        Some(JsonModel::Bool(on)) => Some(on),
        Some(_) => None,
    }
}

/// Whether every name is one that an index can have.
pub open spec fn known_names(entries: Seq<(Seq<char>, JsonModel)>) -> bool {
    forall|i: int|
        0 <= i < entries.len() ==> (#[trigger] entries[i]).0 == "field"@ || entries[i].0
            == "fields"@ || entries[i].0 == "unique"@ || entries[i].0 == "sparse"@
}

/// The index that a collection line's entry names.
pub open spec fn parsed_index(j: JsonModel) -> Option<IndexLineModel> {
    match j {
        JsonModel::Object(entries) => match (
            named_fields(entries),
            parsed_option(entries, "unique"@),
            parsed_option(entries, "sparse"@),
        ) {
            (Some(fields), Some(unique), Some(sparse)) => if known_names(entries) {
                Some(IndexLineModel { fields, unique, sparse })
            } else {
                None
            },
            _ => None,
        },
        _ => match parsed_fields(j) {
            Some(fields) => Some(IndexLineModel { fields, unique: false, sparse: false }),
            None => None,
        },
    }
}

/// The names on an index's entry differ.
proof fn lemma_names()
    ensures
        "field"@ != "fields"@,
        "field"@ != "unique"@,
        "field"@ != "sparse"@,
        "fields"@ != "unique"@,
        "fields"@ != "sparse"@,
        "unique"@ != "sparse"@,
        "$collection"@ != "$indexes"@,
        "$collection"@ != "_id"@,
        "$indexes"@ != "_id"@,
{
    reveal_strlit("field");
    reveal_strlit("fields");
    reveal_strlit("unique");
    reveal_strlit("sparse");
    reveal_strlit("$collection");
    reveal_strlit("$indexes");
    reveal_strlit("_id");
    assert("field"@[0] == 'f' && "unique"@[0] == 'u' && "sparse"@[0] == 's');
    assert("fields"@[0] == 'f' && "field"@.len() == 5 && "fields"@.len() == 6);
    assert("$collection"@[1] == 'c' && "$indexes"@[1] == 'i' && "_id"@[0] == '_');
    assert("$collection"@[0] == '$' && "$indexes"@[0] == '$');
}

/// What an export says of an index is what an import reads.
pub proof fn index_reads_back(index: IndexLineModel)
    requires
        index.fields.len() > 0,
    ensures
        parsed_index(index_json(index)) == Some(index),
{
    lemma_names();
    if index.fields.len() == 1 {
        assert(seq![index.fields[0]] =~= index.fields);
    } else {
        let items = fields_json(index.fields)->Array_0;
        assert(item_texts(items) =~= index.fields);
    }
    if index.unique || index.sparse {
        let name = fields_name(index.fields);
        let field = (name, fields_json(index.fields));
        let entries = seq![field] + option_entry("unique"@, index.unique) + option_entry(
            "sparse"@,
            index.sparse,
        );
        assert(entries[0] == field);
        lemma_position_is(entries, name, 0);
        let at_sparse = 1 + option_entry("unique"@, index.unique).len() as int;
        if index.unique {
            assert(entries[1] == ("unique"@, JsonModel::Bool(true)));
            lemma_position_is(entries, "unique"@, 1);
        } else {
            lemma_position_is(entries, "unique"@, entries.len() as int);
        }
        if index.sparse {
            assert(entries[at_sparse] == ("sparse"@, JsonModel::Bool(true)));
            lemma_position_is(entries, "sparse"@, at_sparse);
        } else {
            lemma_position_is(entries, "sparse"@, entries.len() as int);
        }
        if index.fields.len() == 1 {
            lemma_position_is(entries, "fields"@, entries.len() as int);
        } else {
            lemma_position_is(entries, "field"@, entries.len() as int);
        }
    }
}

/// The indexes of a collection line.
pub open spec fn indexes_json(indexes: Seq<IndexLineModel>) -> JsonModel {
    JsonModel::Array(Seq::new(indexes.len(), |i: int| index_json(indexes[i])))
}

/// A collection's line.
pub open spec fn collection_json(name: Seq<char>, indexes: Seq<IndexLineModel>) -> JsonModel {
    JsonModel::Object(
        seq![("$collection"@, JsonModel::String(name)), ("$indexes"@, indexes_json(indexes))],
    )
}

/// The first line.
pub open spec fn header_json() -> JsonModel {
    JsonModel::Object(seq![("$trunkdb_export"@, JsonModel::UInt(EXPORT_VERSION))])
}

/// The version that a first line names.
pub open spec fn header_version(j: JsonModel) -> Option<u64> {
    match j {
        JsonModel::Object(entries) => if entries.len() == 1 && entries[0].0 == "$trunkdb_export"@ {
            match entries[0].1 {
                JsonModel::UInt(n) => Some(n),
                JsonModel::Int(n) => if n >= 0 {
                    Some(n as u64)
                } else {
                    None
                },
                _ => None,
            }
        } else {
            None
        },
        _ => None,
    }
}

/// What a line says of a collection.
#[verifier::ext_equal]
pub ghost struct HeaderModel {
    pub name: Seq<char>,
    pub indexes: Seq<IndexLineModel>,
}

/// Whether a line is a collection's: one with `$collection` and without an
/// `_id` (an exported document always has one, so a document with a
/// `$collection` field isn't misread).
pub open spec fn is_collection_line(j: JsonModel) -> bool {
    j matches JsonModel::Object(entries) && lookup(entries, "$collection"@) is Some && lookup(
        entries,
        "_id"@,
    ) is None
}

/// Whether every index can be read.
pub open spec fn indexes_parse(items: Seq<JsonModel>) -> bool {
    forall|i: int| 0 <= i < items.len() ==> parsed_index(#[trigger] items[i]) is Some
}

/// The indexes that a line names.
pub open spec fn parsed_indexes(entries: Seq<(Seq<char>, JsonModel)>) -> Option<
    Seq<IndexLineModel>,
> {
    match lookup(entries, "$indexes"@) {
        None => Some(seq![]),
        Some(JsonModel::Array(items)) => if indexes_parse(items) {
            Some(Seq::new(items.len(), |i: int| parsed_index(items[i])->Some_0))
        } else {
            None
        },
        Some(_) => None,
    }
}

/// Whether a collection line has no other names.
pub open spec fn header_names(entries: Seq<(Seq<char>, JsonModel)>) -> bool {
    forall|i: int|
        0 <= i < entries.len() ==> (#[trigger] entries[i]).0 == "$collection"@ || entries[i].0
            == "$indexes"@
}

/// What a collection's line says; `None` if it can't be used.
pub open spec fn parsed_header(j: JsonModel) -> Option<HeaderModel> {
    match j {
        JsonModel::Object(entries) => match (
            lookup(entries, "$collection"@),
            parsed_indexes(entries),
        ) {
            (Some(JsonModel::String(name)), Some(indexes)) => if header_names(entries) {
                Some(HeaderModel { name, indexes })
            } else {
                None
            },
            _ => None,
        },
        _ => None,
    }
}

/// What an export says of a collection is what an import reads.
pub proof fn collection_reads_back(name: Seq<char>, indexes: Seq<IndexLineModel>)
    requires
        forall|i: int| 0 <= i < indexes.len() ==> (#[trigger] indexes[i]).fields.len() > 0,
    ensures
        is_collection_line(collection_json(name, indexes)),
        parsed_header(collection_json(name, indexes)) == Some(HeaderModel { name, indexes }),
{
    lemma_names();
    let entries = collection_json(name, indexes)->Object_0;
    lemma_position_is(entries, "$collection"@, 0);
    lemma_position_is(entries, "$indexes"@, 1);
    lemma_position_is(entries, "_id"@, 2);
    let items = indexes_json(indexes)->Array_0;
    assert forall|i: int| 0 <= i < items.len() implies parsed_index(#[trigger] items[i]) == Some(
        indexes[i],
    ) by {
        index_reads_back(indexes[i]);
    }
    assert(parsed_indexes(entries)->Some_0 =~= indexes);
}

/// The first line of an export is one that an import accepts.
pub proof fn header_reads_back()
    ensures
        header_version(header_json()) == Some(EXPORT_VERSION),
{
}

/// The first line of an export.
pub fn header_line() -> (r: Json)
    ensures
        r@ == header_json(),
{
    let mut entries: Vec<(String, Json)> = Vec::new();
    entries.push((String::from_str("$trunkdb_export"), Json::UInt(EXPORT_VERSION)));
    proof {
        lemma_json_object(entries);
        assert(entry_models(entries@) =~= header_json()->Object_0);
    }
    Json::Object(entries)
}

fn fields_line(fields: &Vec<String>) -> (r: Json)
    ensures
        r@ == fields_json(texts(fields@)),
{
    if fields.len() == 1 {
        assert(texts(fields@)[0] == fields@[0]@);
        return Json::String(copy_text(fields[0].as_str()));
    }
    let mut items: Vec<Json> = Vec::new();
    let n: usize = fields.len();
    for i in 0..n
        invariant
            n == fields@.len(),
            items@.len() == i,
            forall|j: int|
                0 <= j < i ==> (#[trigger] items@[j])@ == JsonModel::String(fields@[j]@),
    {
        items.push(Json::String(copy_text(fields[i].as_str())));
    }
    proof {
        lemma_json_array(items);
        assert(json_models(items@) =~= fields_json(texts(fields@))->Array_0);
    }
    Json::Array(items)
}

/// How an export names an index.
pub fn index_line(index: &IndexMeta) -> (r: Json)
    ensures
        r@ == index_json(line_model(index@)),
{
    assert(texts(index.fields@) =~= index@.fields);
    let fields = fields_line(&index.fields);
    if !index.unique && !index.sparse {
        return fields;
    }
    let mut entries: Vec<(String, Json)> = Vec::new();
    if index.fields.len() == 1 {
        entries.push((String::from_str("field"), fields));
    } else {
        entries.push((String::from_str("fields"), fields));
    }
    if index.unique {
        entries.push((String::from_str("unique"), Json::Bool(true)));
    }
    if index.sparse {
        entries.push((String::from_str("sparse"), Json::Bool(true)));
    }
    proof {
        lemma_json_object(entries);
        assert(entry_models(entries@) =~= index_json(line_model(index@))->Object_0);
    }
    Json::Object(entries)
}

/// The indexes of a collection, as a line says them.
pub open spec fn line_models(indexes: Seq<IndexMeta>) -> Seq<IndexLineModel> {
    Seq::new(indexes.len(), |i: int| line_model(indexes[i]@))
}

/// What a collection line says of indexes.
pub open spec fn lines_of(indexes: Seq<IndexModel>) -> Seq<IndexLineModel> {
    Seq::new(indexes.len(), |i: int| line_model(indexes[i]))
}

/// A collection's line.
pub fn collection_line(name: &str, indexes: &[IndexMeta]) -> (r: Json)
    ensures
        r@ == collection_json(name@, line_models(indexes@)),
{
    let mut items: Vec<Json> = Vec::new();
    let n: usize = indexes.len();
    for i in 0..n
        invariant
            n == indexes@.len(),
            items@.len() == i,
            forall|j: int|
                0 <= j < i ==> (#[trigger] items@[j])@ == index_json(line_model(indexes@[j]@)),
    {
        items.push(index_line(&indexes[i]));
    }
    let mut entries: Vec<(String, Json)> = Vec::new();
    proof {
        lemma_json_array(items);
        assert(json_models(items@) =~= indexes_json(line_models(indexes@))->Array_0);
    }
    entries.push((String::from_str("$collection"), Json::String(copy_text(name))));
    entries.push((String::from_str("$indexes"), Json::Array(items)));
    proof {
        lemma_json_object(entries);
        assert(entry_models(entries@) =~= collection_json(
            name@,
            line_models(indexes@),
        )->Object_0);
    }
    Json::Object(entries)
}

/// What is wrong with a first line.
pub open spec fn header_complaint(value: JsonModel) -> Seq<char> {
    match header_version(value) {
        Some(version) => "export format version "@ + decimal(version as nat)
            + " is not supported (this trunkdb reads "@ + decimal(EXPORT_VERSION as nat) + ")"@,
        None => "the first line must be {\"$trunkdb_export\": 1}"@,
    }
}

/// Refuses a first line that isn't an export's, or is of another version.
pub fn check_header(value: &Json) -> (r: Result<(), String>)
    ensures
        r is Ok <==> header_version(value@) == Some(EXPORT_VERSION),
        r matches Err(message) ==> message@ == header_complaint(value@),
{
    let entries: &Vec<(String, Json)> = match value {
        Json::Object(entries) => entries,
        _ => return Err(String::from_str("the first line must be {\"$trunkdb_export\": 1}")),
    };
    proof {
        lemma_json_object(*entries);
        if entries@.len() == 1 {
            assert(entry_models(entries@)[0] == (entries@[0].0@, entries@[0].1@));
        }
    }
    if entries.len() != 1 || !str_equal(entries[0].0.as_str(), "$trunkdb_export") {
        return Err(String::from_str("the first line must be {\"$trunkdb_export\": 1}"));
    }
    let version: u64 = match &entries[0].1 {
        Json::UInt(n) => *n,
        Json::Int(n) => {
            if *n < 0 {
                return Err(String::from_str("the first line must be {\"$trunkdb_export\": 1}"));
            }
            *n as u64
        },
        _ => return Err(String::from_str("the first line must be {\"$trunkdb_export\": 1}")),
    };
    if version == EXPORT_VERSION {
        return Ok(());
    }
    let found = decimal_text(version);
    let known = decimal_text(EXPORT_VERSION);
    let message = join(
        &[
            "export format version ",
            found.as_str(),
            " is not supported (this trunkdb reads ",
            known.as_str(),
            ")",
        ],
    );
    proof {
        reveal_with_fuel(joined, 6);
        assert(message@ =~= header_complaint(value@));
    }
    Err(message)
}

/// What is wrong with the index at `k` on a collection line.
pub open spec fn index_complaint(text: Seq<char>, k: int) -> Seq<char> {
    "an `$indexes` entry must be a field name, a list of them, or {\"field\": ..., \"unique\": true}, got "@
        + json_part(text, "/$indexes/"@ + decimal(k as nat))
}

fn wrong_index(text: &str, k: usize) -> (r: String)
    ensures
        r@ == index_complaint(text@, k as int),
{
    let at = decimal_text(k as u64);
    let path = join(&["/$indexes/", at.as_str()]);
    proof {
        reveal_with_fuel(joined, 3);
        assert(path@ =~= "/$indexes/"@ + decimal(k as nat));
    }
    let shown = text_part(text, path.as_str());
    let message = join(
        &[
            "an `$indexes` entry must be a field name, a list of them, or {\"field\": ..., \"unique\": true}, got ",
            shown.as_str(),
        ],
    );
    proof {
        assert(message@ =~= index_complaint(text@, k as int));
    }
    message
}

fn parse_fields(value: &Json) -> (r: Option<Vec<String>>)
    ensures
        match r {
            Some(fields) => parsed_fields(value@) == Some(texts(fields@)),
            None => parsed_fields(value@) is None,
        },
{
    match value {
        Json::String(field) => {
            let mut fields: Vec<String> = Vec::new();
            fields.push(copy_text(field.as_str()));
            assert(texts(fields@) =~= seq![field@]);
            Some(fields)
        },
        Json::Array(items) => {
            proof {
                lemma_json_array(*items);
            }
            let ghost all = json_models(items@);
            let mut fields: Vec<String> = Vec::new();
            let n: usize = items.len();
            for i in 0..n
                invariant
                    n == items@.len(),
                    all == json_models(items@),
                    value@ == JsonModel::Array(all),
                    fields@.len() == i,
                    forall|j: int|
                        0 <= j < i ==> (#[trigger] all[j]) == JsonModel::String(fields@[j]@),
            {
                assert(all[i as int] == items@[i as int]@);
                match &items[i] {
                    Json::String(field) => {
                        fields.push(copy_text(field.as_str()));
                    },
                    _ => return None,
                }
            }
            assert(texts(fields@) =~= item_texts(all));
            Some(fields)
        },
        _ => None,
    }
}

/// The fields that an object names.
fn parse_named_fields(entries: &Vec<(String, Json)>) -> (r: Option<Vec<String>>)
    ensures
        match r {
            Some(fields) => named_fields(entry_models(entries@)) == Some(texts(fields@)),
            None => named_fields(entry_models(entries@)) is None,
        },
{
    let ghost all = entry_models(entries@);
    let n: usize = entries.len();
    let one: usize = find_name(entries, "field");
    let several: usize = find_name(entries, "fields");
    if one < n && several >= n {
        assert(all[one as int].1 == entries@[one as int].1@);
        return match &entries[one].1 {
            Json::String(_) => parse_fields(&entries[one].1),
            _ => None,
        };
    }
    if one >= n && several < n {
        assert(all[several as int].1 == entries@[several as int].1@);
        return match &entries[several].1 {
            Json::Array(_) => parse_fields(&entries[several].1),
            _ => None,
        };
    }
    None
}

fn parse_option(entries: &Vec<(String, Json)>, name: &str) -> (r: Option<bool>)
    ensures
        r == parsed_option(entry_models(entries@), name@),
{
    let at: usize = find_name(entries, name);
    if at >= entries.len() {
        return Some(false);
    }
    assert(entry_models(entries@)[at as int].1 == entries@[at as int].1@);
    match &entries[at].1 {
        Json::Bool(on) => Some(*on),
        _ => None,
    }
}

/// One `$indexes` entry, the one at `k` on the line `text`: a field's name, a
/// list of them, or an object.
pub fn parse_index(index: &Json, text: &str, k: usize) -> (r: Result<IndexLine, String>)
    ensures
        match r {
            Ok(line) => parsed_index(index@) == Some(line@),
            Err(message) => parsed_index(index@) is None && message@ == index_complaint(
                text@,
                k as int,
            ),
        },
{
    let entries: &Vec<(String, Json)> = match index {
        Json::Object(entries) => entries,
        _ => return match parse_fields(index) {
            Some(fields) => Ok(
                IndexLine { fields, options: IndexOptions { unique: false, sparse: false } },
            ),
            None => Err(wrong_index(text, k)),
        },
    };
    proof {
        lemma_json_object(*entries);
    }
    let ghost all = entry_models(entries@);
    let fields = match parse_named_fields(entries) {
        Some(fields) => fields,
        None => return Err(wrong_index(text, k)),
    };
    let unique: bool = match parse_option(entries, "unique") {
        Some(on) => on,
        None => return Err(wrong_index(text, k)),
    };
    let sparse: bool = match parse_option(entries, "sparse") {
        Some(on) => on,
        None => return Err(wrong_index(text, k)),
    };
    let n: usize = entries.len();
    for i in 0..n
        invariant
            n == entries@.len(),
            all == entry_models(entries@),
            index@ == JsonModel::Object(all),
            forall|j: int|
                0 <= j < i ==> (#[trigger] all[j]).0 == "field"@ || all[j].0 == "fields"@
                    || all[j].0 == "unique"@ || all[j].0 == "sparse"@,
    {
        assert(all[i as int].0 == entries@[i as int].0@);
        let name: &str = entries[i].0.as_str();
        if !str_equal(name, "field") && !str_equal(name, "fields") && !str_equal(name, "unique")
            && !str_equal(name, "sparse") {
            assert(!known_names(all));
            return Err(wrong_index(text, k));
        }
    }
    Ok(IndexLine { fields, options: IndexOptions { unique, sparse } })
}

/// A `{"$collection": ..., "$indexes": [...]}` line.
#[derive(Debug)]
pub struct CollectionHeader {
    pub name: String,
    pub indexes: Vec<IndexLine>,
}

/// The indexes behind a vector of them.
pub open spec fn index_lines(indexes: Seq<IndexLine>) -> Seq<IndexLineModel> {
    Seq::new(indexes.len(), |i: int| indexes[i]@)
}

impl View for CollectionHeader {
    type V = HeaderModel;

    open spec fn view(&self) -> HeaderModel {
        HeaderModel { name: self.name@, indexes: index_lines(self.indexes@) }
    }
}

/// Whether this is what is wrong with the indexes on a collection line: the
/// first one that is wrong, or that they are no list.
pub open spec fn indexes_complaint(
    text: Seq<char>,
    entries: Seq<(Seq<char>, JsonModel)>,
    message: Seq<char>,
) -> bool {
    match lookup(entries, "$indexes"@) {
        Some(JsonModel::Array(items)) => exists|k: int| #[trigger]
            first_wrong(items, k) && message == index_complaint(text, k),
        _ => message == "`$indexes` must be an array, got "@ + json_part(text, "/$indexes"@),
    }
}

/// Whether the first index that is wrong is the one at `k`.
pub open spec fn first_wrong(items: Seq<JsonModel>, k: int) -> bool {
    &&& 0 <= k < items.len()
    &&& parsed_index(items[k]) is None
    &&& forall|j: int| 0 <= j < k ==> parsed_index(#[trigger] items[j]) is Some
}

/// Whether this is what is wrong with the collection line `text`: the first
/// thing that is.
pub open spec fn collection_complaint(
    text: Seq<char>,
    value: JsonModel,
    message: Seq<char>,
) -> bool {
    let entries = value->Object_0;
    if !(lookup(entries, "$collection"@) matches Some(JsonModel::String(_))) {
        message == "`$collection` must be a string"@
    } else if parsed_indexes(entries) is None {
        indexes_complaint(text, entries, message)
    } else {
        exists|i: int|
            0 <= i < entries.len() && first_unknown(entries, i) && message == "unknown key "@
                + quoted_text((#[trigger] entries[i]).0) + " in a collection line"@
    }
}

/// Whether a collection line's first other name is the one at `i`.
pub open spec fn first_unknown(entries: Seq<(Seq<char>, JsonModel)>, i: int) -> bool {
    &&& entries[i].0 != "$collection"@
    &&& entries[i].0 != "$indexes"@
    &&& forall|j: int|
        0 <= j < i ==> (#[trigger] entries[j]).0 == "$collection"@ || entries[j].0 == "$indexes"@
}

fn parse_indexes(entries: &Vec<(String, Json)>, text: &str) -> (r: Result<
    Vec<IndexLine>,
    String,
>)
    ensures
        match r {
            Ok(indexes) => parsed_indexes(entry_models(entries@)) == Some(index_lines(indexes@)),
            Err(message) => parsed_indexes(entry_models(entries@)) is None && indexes_complaint(
                text@,
                entry_models(entries@),
                message@,
            ),
        },
{
    let at: usize = find_name(entries, "$indexes");
    let mut indexes: Vec<IndexLine> = Vec::new();
    if at >= entries.len() {
        assert(index_lines(indexes@) =~= seq![]);
        return Ok(indexes);
    }
    assert(entry_models(entries@)[at as int].1 == entries@[at as int].1@);
    let items: &Vec<Json> = match &entries[at].1 {
        Json::Array(items) => items,
        _ => {
            let shown = text_part(text, "/$indexes");
            let message = join(&["`$indexes` must be an array, got ", shown.as_str()]);
            proof {
                reveal_with_fuel(joined, 3);
                assert(message@ =~= "`$indexes` must be an array, got "@ + json_part(
                    text@,
                    "/$indexes"@,
                ));
            }
            return Err(message);
        },
    };
    proof {
        lemma_json_array(*items);
    }
    let ghost all = json_models(items@);
    let n: usize = items.len();
    for i in 0..n
        invariant
            n == items@.len(),
            all == json_models(items@),
            lookup(entry_models(entries@), "$indexes"@) == Some(JsonModel::Array(all)),
            indexes@.len() == i,
            forall|j: int|
                0 <= j < i ==> parsed_index(#[trigger] all[j]) == Some(indexes@[j]@),
    {
        assert(all[i as int] == items@[i as int]@);
        match parse_index(&items[i], text, i) {
            Ok(index) => {
                indexes.push(index);
            },
            Err(e) => {
                assert(first_wrong(all, i as int));
                return Err(e);
            },
        }
    }
    proof {
        assert(indexes_parse(all));
        assert(parsed_indexes(entry_models(entries@))->Some_0 =~= index_lines(indexes@));
    }
    Ok(indexes)
}

impl CollectionHeader {
    /// What a collection's line says, `text` as it stands and `value` as JSON;
    /// `None` if it's a document's line instead.
    pub fn parse(value: &Json, text: &str) -> (r: Result<Option<CollectionHeader>, String>)
        ensures
            match r {
                Ok(Some(header)) => is_collection_line(value@) && parsed_header(value@) == Some(
                    header@,
                ),
                Ok(None) => !is_collection_line(value@),
                Err(message) => is_collection_line(value@) && parsed_header(value@) is None
                    && collection_complaint(text@, value@, message@),
            },
    {
        let entries: &Vec<(String, Json)> = match value {
            Json::Object(entries) => entries,
            _ => return Ok(None),
        };
        proof {
            lemma_json_object(*entries);
        }
        let ghost all = entry_models(entries@);
        let at: usize = find_name(entries, "$collection");
        if at >= entries.len() || find_name(entries, "_id") < entries.len() {
            return Ok(None);
        }
        assert(all[at as int].1 == entries@[at as int].1@);
        let name: &String = match &entries[at].1 {
            Json::String(name) => name,
            _ => return Err(String::from_str("`$collection` must be a string")),
        };
        let indexes = match parse_indexes(entries, text) {
            Ok(indexes) => indexes,
            Err(e) => return Err(e),
        };
        let n: usize = entries.len();
        for i in 0..n
            invariant
                n == entries@.len(),
                all == entry_models(entries@),
                value@ == JsonModel::Object(all),
                is_collection_line(value@),
                lookup(all, "$collection"@) matches Some(JsonModel::String(_)),
                parsed_indexes(all) is Some,
                forall|j: int|
                    0 <= j < i ==> (#[trigger] all[j]).0 == "$collection"@ || all[j].0
                        == "$indexes"@,
        {
            assert(all[i as int].0 == entries@[i as int].0@);
            let key: &str = entries[i].0.as_str();
            if !str_equal(key, "$collection") && !str_equal(key, "$indexes") {
                assert(!header_names(all));
                let shown = quoted(key);
                let message = join(&["unknown key ", shown.as_str(), " in a collection line"]);
                proof {
                    reveal_with_fuel(joined, 4);
                    assert(message@ =~= "unknown key "@ + quoted_text(all[i as int].0)
                        + " in a collection line"@);
                    assert(first_unknown(all, i as int));
                }
                return Err(message);
            }
        }
        Ok(Some(CollectionHeader { name: copy_text(name.as_str()), indexes }))
    }
}

/// What an import has to do before it reads on.
pub enum ImportStep {
    /// Nothing.
    Read,
    /// Write these as one batch.
    Write(Vec<WriteOp>),
    /// Write what is left of the last collection as one batch, build its
    /// indexes, then make sure the next one is there.
    Next { write: Vec<WriteOp>, build: Option<CollectionHeader>, name: String },
}

/// An import on its way, line by line.
pub struct Import {
    pub seen_header: bool,
    pub current: Option<CollectionHeader>,
    pub chunk: Vec<WriteOp>,
    pub bytes: usize,
    pub summary: Summary,
}

/// Whether a chunk is to be written.
pub open spec fn chunk_full(documents: int, bytes: int) -> bool {
    documents >= CHUNK_DOCUMENTS || bytes >= CHUNK_BYTES
}

/// Whether this is what is wrong with a line.
pub open spec fn line_complaint(
    before: Import,
    text: Seq<char>,
    value: JsonModel,
    message: Seq<char>,
) -> bool {
    if !before.seen_header {
        message == header_complaint(value)
    } else if is_collection_line(value) {
        collection_complaint(text, value, message)
    } else if before.current is None {
        message == "a document before the first {\"$collection\": ...} line"@
    } else {
        parsed_line(value) is None && document_complaint(value, message)
    }
}

/// What a line does to an import on its way, and what the import has to do
/// then: the header first, then collections and their documents, a document
/// without an `_id` under the new id.
pub open spec fn line_taken(
    before: Import,
    after: Import,
    number: usize,
    text: Seq<char>,
    value: JsonModel,
    new_id: Seq<u8>,
    r: Result<ImportStep, Error>,
) -> bool {
    let len = encode_utf8(text).len();
    &&& r matches Err(e) ==> e matches Error::Import { line, message } && line == number
        && line_complaint(before, text, value, message@)
    &&& if !before.seen_header {
        if header_version(value) == Some(EXPORT_VERSION) {
            r matches Ok(ImportStep::Read) && after.seen_header
                && after.current == before.current && after.chunk
                == before.chunk && after.bytes == before.bytes
                && after.summary == before.summary
        } else {
            r is Err
        }
    } else if is_collection_line(value) {
        match parsed_header(value) {
            Some(header) => {
                &&& r matches Ok(ImportStep::Next { write, build, name })
                    && write == before.chunk && build == before.current && name@
                    == header.name
                &&& after.seen_header
                &&& after.current matches Some(current) && current@ == header
                &&& after.chunk@.len() == 0
                &&& after.bytes == 0
                &&& after.summary == (Summary {
                    collections: (before.summary.collections + 1) as usize,
                    ..before.summary
                })
            },
            None => r is Err,
        }
    } else {
        match (before.current, parsed_line(value)) {
            (Some(current), Some((id, doc))) => {
                let op = document_op(current.name@, id, new_id, doc);
                let ops = before.chunk@;
                let bytes = if before.bytes + len > usize::MAX {
                    usize::MAX as int
                } else {
                    before.bytes + len
                };
                &&& after.seen_header
                &&& after.current == before.current
                &&& after.summary == (Summary {
                    documents: (before.summary.documents + 1) as usize,
                    ..before.summary
                })
                &&& if chunk_full(ops.len() + 1int, bytes) {
                    r matches Ok(ImportStep::Write(write)) && write@.len() == ops.len() + 1
                        && write@.drop_last() == ops && is_insert(write@.last(), op)
                        && after.chunk@.len() == 0 && after.bytes == 0
                } else {
                    r matches Ok(ImportStep::Read) && after.chunk@.len() == ops.len()
                        + 1 && after.chunk@.drop_last() == ops && is_insert(
                        after.chunk@.last(),
                        op,
                    ) && after.bytes == bytes
                }
            },
            _ => r is Err,
        }
    }
}

fn fail(line: usize, message: String) -> (e: Error)
    ensures
        e matches Error::Import { line: l, message: m } && l == line && m == message,
{
    Error::Import { line, message }
}

impl Import {
    pub fn new() -> (import: Import)
        ensures
            !import.seen_header,
            import.current is None,
            import.chunk@.len() == 0,
            import.bytes == 0,
            import.summary == (Summary { collections: 0, documents: 0 }),
    {
        Import {
            seen_header: false,
            current: None,
            chunk: Vec::new(),
            bytes: 0,
            summary: Summary { collections: 0, documents: 0 },
        }
    }

    /// Takes a line: the header first, then collections and their documents.
    /// A document without an `_id` gets the new id. The line is `text` as it
    /// stands, `value` as JSON.
    pub fn line(&mut self, number: usize, text: &str, value: &Json, new_id: DocId) -> (r: Result<
        ImportStep,
        Error,
    >)
        requires
            json_valid(value@),
            old(self).summary.collections < usize::MAX,
            old(self).summary.documents < usize::MAX,
        ensures
            line_taken(*old(self), *final(self), number, text@, value@, new_id@, r),
    {
        if !self.seen_header {
            match check_header(value) {
                Ok(()) => {},
                Err(message) => return Err(fail(number, message)),
            }
            self.seen_header = true;
            return Ok(ImportStep::Read);
        }
        match CollectionHeader::parse(value, text) {
            Ok(Some(header)) => {
                let name = copy_text(header.name.as_str());
                let mut write: Vec<WriteOp> = Vec::new();
                std::mem::swap(&mut write, &mut self.chunk);
                let mut build: Option<CollectionHeader> = Some(header);
                std::mem::swap(&mut build, &mut self.current);
                self.bytes = 0;
                self.summary.collections = self.summary.collections + 1;
                return Ok(ImportStep::Next { write, build, name });
            },
            Ok(None) => {},
            Err(message) => return Err(fail(number, message)),
        }
        let collection: String = match &self.current {
            Some(current) => copy_text(current.name.as_str()),
            None => return Err(
                fail(
                    number,
                    String::from_str("a document before the first {\"$collection\": ...} line"),
                ),
            ),
        };
        let (found, doc) = match parse_document_line(value) {
            Ok(parsed) => parsed,
            Err(e) => return Err(fail(number, e.to_string())),
        };
        let id: DocId = match found {
            Some(id) => id,
            None => new_id,
        };
        let ghost before = self.chunk@;
        self.chunk.push(WriteOp::Insert(collection, id, doc));
        assert(self.chunk@.drop_last() =~= before);
        let len: usize = text.as_bytes().len();
        self.bytes = self.bytes.saturating_add(len);
        self.summary.documents = self.summary.documents + 1;
        if self.chunk.len() >= CHUNK_DOCUMENTS || self.bytes >= CHUNK_BYTES {
            let mut write: Vec<WriteOp> = Vec::new();
            std::mem::swap(&mut write, &mut self.chunk);
            self.bytes = 0;
            return Ok(ImportStep::Write(write));
        }
        Ok(ImportStep::Read)
    }

    /// Takes a line of text: a blank one is passed over, any other holds a
    /// JSON value.
    pub fn text_line(&mut self, number: usize, text: &str, new_id: DocId) -> (r: Result<
        ImportStep,
        Error,
    >)
        requires
            old(self).summary.collections < usize::MAX,
            old(self).summary.documents < usize::MAX,
        ensures
            if blank(text@) {
                r matches Ok(ImportStep::Read) && *final(self) == *old(self)
            } else {
                match json_text(text@) {
                    Ok(value) => line_taken(
                        *old(self),
                        *final(self),
                        number,
                        text@,
                        value,
                        new_id@,
                        r,
                    ),
                    Err(why) => *final(self) == *old(self) && (r matches Err(
                        Error::Import { line, message },
                    ) && line == number && message@ == "not JSON: "@ + why),
                }
            },
    {
        if is_blank(text) {
            return Ok(ImportStep::Read);
        }
        match parse_json(text) {
            Ok(value) => {
                self.line(number, text, &value, new_id)
            },
            Err(why) => {
                let message = join(&["not JSON: ", why.as_str()]);
                proof {
                    reveal_with_fuel(joined, 3);
                    assert(message@ =~= "not JSON: "@ + why@);
                }
                Err(fail(number, message))
            },
        }
    }

    /// Ends an import: what is left to write as one batch, then the last
    /// collection's indexes to build.
    pub fn finish(self) -> (r: Result<(Vec<WriteOp>, Option<CollectionHeader>, Summary), Error>)
        ensures
            match r {
                Ok((write, build, summary)) => self.seen_header && write == self.chunk && build
                    == self.current && summary == self.summary,
                Err(e) => !self.seen_header && (e matches Error::Import { line, message } && line
                    == 1 && message@ == "empty input: no header line"@),
            },
    {
        if !self.seen_header {
            return Err(fail(1, String::from_str("empty input: no header line")));
        }
        Ok((self.chunk, self.current, self.summary))
    }
}

// ---------------------------------------------------------------------
// A whole export.

/// The lines of a collection's documents, by id.
pub open spec fn document_lines(held: Map<Seq<u8>, DocModel>, ids: Seq<Seq<u8>>) -> Seq<JsonModel> {
    Seq::new(ids.len(), |i: int| line_of(ids[i], held[ids[i]]))
}

/// The ids of a collection's documents, in order.
pub open spec fn ids_in_order(
    pages: Map<PageId, Seq<u8>>,
    list: Seq<CollectionModel>,
    name: Seq<char>,
) -> Seq<Seq<u8>> {
    let entries = entries_at(pages, list[position(list, name) as int].meta.index_root);
    Seq::new(entries.len(), |i: int| entries[i].0)
}

/// A collection's lines: the one that names it and its indexes, then its
/// documents by id.
pub open spec fn collection_lines(
    pages: Map<PageId, Seq<u8>>,
    list: Seq<CollectionModel>,
    name: Seq<char>,
) -> Seq<JsonModel> {
    seq![collection_json(name, lines_of(indexes_of(list, name)))] + document_lines(
        stored_in(pages, list, name),
        ids_in_order(pages, list, name),
    )
}

/// The lines of the collections with these names, in turn.
pub open spec fn named_lines(
    pages: Map<PageId, Seq<u8>>,
    list: Seq<CollectionModel>,
    names: Seq<Seq<char>>,
) -> Seq<JsonModel>
    decreases names.len(),
{
    if names.len() == 0 {
        seq![]
    } else {
        named_lines(pages, list, names.drop_last()) + collection_lines(pages, list, names.last())
    }
}

/// Whether these are the names of all collections, in order.
pub open spec fn all_names(list: Seq<CollectionModel>, names: Seq<Seq<char>>) -> bool {
    &&& names.len() == list.len()
    &&& names_ascending(names)
    &&& forall|i: int| 0 <= i < list.len() ==> names.contains((#[trigger] list[i]).name)
}

/// The lines of a whole export: the header, then the collections by name.
pub open spec fn exported(
    pages: Map<PageId, Seq<u8>>,
    list: Seq<CollectionModel>,
    lines: Seq<JsonModel>,
) -> bool {
    exists|names: Seq<Seq<char>>| #[trigger]
        all_names(list, names) && lines == seq![header_json()] + named_lines(pages, list, names)
}

/// The ids of a collection's documents, as its lines have them: each once, in
/// ascending order.
pub proof fn every_document_has_its_line(
    pages: Map<PageId, Seq<u8>>,
    list: Seq<CollectionModel>,
    name: Seq<char>,
)
    requires
        sound(pages, list),
        exists_in(list, name),
    ensures
        ({
            let ids = ids_in_order(pages, list, name);
            &&& forall|i: int, j: int|
                0 <= i < j < ids.len() ==> bytes_lt(#[trigger] ids[i], #[trigger] ids[j])
            &&& forall|id: Seq<u8>| #[trigger]
                stored_in(pages, list, name).dom().contains(id) <==> ids.contains(id)
        }),
{
    let own = choose|own: Owners| sound_with(pages, list, own);
    lemma_position(list, name);
    let c = list[position(list, name) as int];
    assert(collection_sound(pages, own, c));
    reveal(collection_sound);
    lemma_tree_facts(pages, c.meta.index_root);
    let entries = entries_at(pages, c.meta.index_root);
    let ids = ids_in_order(pages, list, name);
    assert forall|i: int, j: int| 0 <= i < j < ids.len() implies bytes_lt(
        #[trigger] ids[i],
        #[trigger] ids[j],
    ) by {
        assert(bytes_lt(entries[i].0, entries[j].0));
    }
    assert forall|id: Seq<u8>| #[trigger]
        stored_in(pages, list, name).dom().contains(id) <==> ids.contains(id) by {
        if stored_in(pages, list, name).dom().contains(id) {
            let at = key_position(entries, id);
            lemma_key_position(entries, id);
            assert(ids[at] == id);
        }
        if ids.contains(id) {
            let i = choose|i: int| 0 <= i < ids.len() && ids[i] == id;
            lemma_has_key(entries, id, i);
        }
    }
}

/// A collection's documents, a line each.
fn export_documents<S: PageStore>(
    store: &S,
    meta: &CollectionMeta,
    lines: &mut Vec<Json>,
    Ghost(list): Ghost<Seq<CollectionModel>>,
    Ghost(name): Ghost<Seq<char>>,
) -> (r: Result<(), Error>)
    requires
        store.wf(),
    ensures
        sound(store.pages(), list) && meta_of(list, name) == Some(*meta) ==> match r {
            Ok(()) => json_models(final(lines)@) == json_models(old(lines)@) + document_lines(
                stored_in(store.pages(), list, name),
                ids_in_order(store.pages(), list, name),
            ),
            Err(_) => !store.reliable(),
        },
        r is Ok ==> final(lines)@.len() >= old(lines)@.len(),
{
    let ghost pages = store.pages();
    let ghost good = sound(pages, list) && meta_of(list, name) == Some(*meta);
    let ghost own = choose|own: Owners| sound_with(pages, list, own);
    let ghost before = json_models(lines@);
    let ghost found = entries_at(pages, meta.index_root);
    let ghost held = stored_in(pages, list, name);
    let ghost ids = ids_in_order(pages, list, name);
    proof {
        if good {
            lemma_position(list, name);
            assert(collection_sound(pages, own, list[position(list, name) as int]));
            reveal(collection_sound);
            reveal(records_owned);
            lemma_tree_facts(pages, meta.index_root);
            assert forall|k: int| 0 <= k < found.len() implies record_owned(
                pages,
                own,
                meta.index_root,
                #[trigger] found[k],
            ) && ids[k] == found[k].0 && held[ids[k]] == record_at(
                pages,
                found[k].1,
            )->Some_0.1 by {
                assert(record_owned(pages, own, meta.index_root, found[k]));
                lemma_has_key(found, found[k].0, k);
            }
        }
    }
    let entries = match BTreeIndex::new(meta.index_root).scan(store) {
        Ok(entries) => entries,
        Err(e) => return Err(Error::Io(e)),
    };
    let n: usize = entries.len();
    for i in 0..n
        invariant
            n == entries@.len(),
            store.wf(),
            pages == store.pages(),
            lines@.len() >= old(lines)@.len(),
            before == json_models(old(lines)@),
            good == (sound(pages, list) && meta_of(list, name) == Some(*meta)),
            good ==> node::entry_models(entries@) == found && ids.len() == n,
            good ==> ids == ids_in_order(pages, list, name) && held == stored_in(
                pages,
                list,
                name,
            ),
            good ==> forall|k: int|
                0 <= k < found.len() ==> record_owned(
                    pages,
                    own,
                    meta.index_root,
                    #[trigger] found[k],
                ) && ids[k] == found[k].0 && held[ids[k]] == record_at(
                    pages,
                    found[k].1,
                )->Some_0.1,
            good ==> json_models(lines@) == before + document_lines(held, ids.take(i as int)),
    {
        let ghost so_far = lines@;
        proof {
            if good {
                assert(record_owned(pages, own, meta.index_root, found[i as int]));
                assert(node::entry_models(entries@)[i as int].1 == entries@[i as int].1);
            }
        }
        let (id, doc) = match get_record(store, entries[i].1) {
            Ok(record) => record,
            Err(e) => return Err(Error::Io(e)),
        };
        lines.push(document_line(id, &doc));
        proof {
            if good {
                assert(json_models(lines@) =~= json_models(so_far).push(lines@.last()@));
                assert(ids.take(i + 1) =~= ids.take(i as int).push(ids[i as int]));
                assert(document_lines(held, ids.take(i + 1)) =~= document_lines(
                    held,
                    ids.take(i as int),
                ).push(line_of(id@, doc@)));
                assert(json_models(lines@) =~= before + document_lines(held, ids.take(i + 1)));
            }
        }
    }
    proof {
        if good {
            assert(ids.take(n as int) =~= ids);
        }
    }
    Ok(())
}

/// The whole database as the lines of an export, and what it holds: a header
/// line, then for each collection, by name, a line naming it and its indexes,
/// followed by its documents by id.
pub fn export_lines<S: PageStore>(catalog: &Catalog, store: &S) -> (r: Result<
    (Vec<Json>, Summary),
    Error,
>)
    requires
        store.wf(),
    ensures
        sound(store.pages(), catalog@) ==> match r {
            Ok((lines, summary)) => {
                &&& exported(store.pages(), catalog@, json_models(lines@))
                &&& summary.collections == catalog@.len()
                &&& summary.documents + summary.collections + 1 == lines@.len()
            },
            Err(_) => !store.reliable(),
        },
{
    let ghost pages = store.pages();
    let ghost list = catalog@;
    let names = sorted_names(catalog);
    let mut lines: Vec<Json> = Vec::new();
    lines.push(header_line());
    let n: usize = names.len();
    proof {
        assert(texts(names@).take(0) =~= seq![]);
        assert(json_models(lines@) =~= seq![header_json()] + named_lines(
            pages,
            list,
            texts(names@).take(0),
        ));
    }
    for i in 0..n
        invariant
            n == names@.len() == list.len(),
            store.wf(),
            pages == store.pages(),
            list == catalog@,
            forall|k: int| 0 <= k < n ==> exists_in(list, (#[trigger] names@[k])@),
            lines@.len() > i,
            sound(pages, list) ==> json_models(lines@) == seq![header_json()] + named_lines(
                pages,
                list,
                texts(names@).take(i as int),
            ),
    {
        let name: &str = names[i].as_str();
        let ghost so_far = json_models(lines@);
        assert(exists_in(list, names@[i as int]@));
        let indexes: &[IndexMeta] = catalog.indexes(name);
        lines.push(collection_line(name, indexes));
        let ghost named = json_models(lines@);
        if let Some(meta) = catalog.get(name) {
            match export_documents(store, meta, &mut lines, Ghost(list), Ghost(name@)) {
                Ok(()) => {},
                Err(e) => return Err(e),
            }
        }
        proof {
            if sound(pages, list) {
                let front = texts(names@).take(i + 1);
                assert(front.drop_last() =~= texts(names@).take(i as int));
                assert(front.last() == name@);
                let models = indexes_of(list, name@);
                assert(line_models(indexes@) =~= lines_of(models));
                assert(named =~= so_far.push(collection_json(name@, lines_of(models))));
                assert(json_models(lines@) =~= so_far + collection_lines(pages, list, name@));
                assert(json_models(lines@) =~= seq![header_json()] + named_lines(
                    pages,
                    list,
                    front,
                ));
            }
        }
    }
    proof {
        assert(texts(names@).take(n as int) =~= texts(names@));
        assert forall|i: int| 0 <= i < list.len() implies texts(names@).contains(
            (#[trigger] list[i]).name,
        ) by {
            let k = choose|k: int| 0 <= k < names@.len() && (#[trigger] names@[k])@ == list[i].name;
            assert(texts(names@)[k] == list[i].name);
        }
        assert(all_names(list, texts(names@)));
    }
    let documents: usize = lines.len() - 1 - n;
    Ok((lines, Summary { collections: n, documents }))
}

/// An insert of a document into a collection.
pub ghost struct InsertModel {
    pub collection: Seq<char>,
    pub id: Seq<u8>,
    pub doc: DocModel,
}

/// What a document's line becomes: an insert under the line's id, or under the
/// new one.
pub open spec fn document_op(
    collection: Seq<char>,
    id: Option<Seq<u8>>,
    new_id: Seq<u8>,
    doc: DocModel,
) -> InsertModel {
    InsertModel {
        collection,
        id: match id {
            Some(id) => id,
            None => new_id,
        },
        doc,
    }
}

/// Whether a change is this insert.
pub open spec fn is_insert(op: WriteOp, insert: InsertModel) -> bool {
    op matches WriteOp::Insert(name, id, doc) && name@ == insert.collection && id@ == insert.id
        && doc@ == insert.doc
}

} // verus!

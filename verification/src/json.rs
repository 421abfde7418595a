//! Tagged JSON: documents to JSON and back, without losing anything. Plain
//! JSON can't tell an id from a string or hold binary data, NaN or
//! infinity, so those become one-key objects with a `$` tag:
//!
//! | document               | JSON                                  |
//! |------------------------|---------------------------------------|
//! | id                     | `{"$id": "<uuid>"}`                   |
//! | binary                 | `{"$binary": "<base64>"}`             |
//! | float NaN / ±inf       | `{"$float": "NaN"}`, `"Infinity"`, `"-Infinity"` |
//! | object that looks like a tag | `{"$object": {...}}`            |
//!
//! Everything else is plain JSON: an int is an integer, a float a number
//! with a fraction or exponent, so the two stay apart on the way back. Plain
//! JSON is therefore valid tagged JSON.
//!
//! Only a one-key object whose key is a tag name is read as a tag; any
//! other object, including one with an unknown `$` key, is an ordinary
//! object. An object that is itself a one-key object with a tag name is
//! written inside `$object`, so it can't be mistaken for a tag.

use crate::base64::{base64_bytes, base64_decode, base64_encode, base64_of, base64_reads_back, lemma_base64_ascii};
use crate::document::{
    distinct_keys, entry_position, fields_tag_like, is_tag, is_tag_name, lemma_array_view,
    lemma_entry_position, lemma_position_is, lookup, models, tag_like, valid, DocId, DocModel,
    Document, Fields,
};
use crate::id::{id_reads_back, id_text, parsed_id};
use crate::number::{float_is_nan, magnitude, nan};
use crate::text::{
    decimal, decimal_text, join, joined, lemma_ascii, lemma_utf8_injective, quoted, quoted_text,
    str_equal,
};
use vstd::prelude::*;
use vstd::string::StringExecFns;
use vstd::utf8::{decode_utf8, encode_utf8};

verus! {

/// A JSON value. A number is an integer of either kind, or a float given by
/// its IEEE 754 bits. An object's entries keep their order; no name is there
/// twice.
#[derive(Debug)]
pub enum Json {
    Null,
    Bool(bool),
    Int(i64),
    UInt(u64),
    Float(u64),
    String(String),
    Array(Vec<Json>),
    Object(Vec<(String, Json)>),
}

/// What a JSON value is.
#[verifier::ext_equal]
pub ghost enum JsonModel {
    Null,
    Bool(bool),
    Int(i64),
    UInt(u64),
    Float(u64),
    String(Seq<char>),
    Array(Seq<JsonModel>),
    Object(Seq<(Seq<char>, JsonModel)>),
}

/// What the value `json` is.
pub open spec fn json_model(json: Json) -> JsonModel
    decreases json,
{
    match json {
        Json::Null => JsonModel::Null,
        Json::Bool(b) => JsonModel::Bool(b),
        Json::Int(n) => JsonModel::Int(n),
        Json::UInt(n) => JsonModel::UInt(n),
        Json::Float(f) => JsonModel::Float(f),
        Json::String(s) => JsonModel::String(s@),
        Json::Array(items) => JsonModel::Array(
            Seq::new(
                items@.len(),
                |i: int|
                    if 0 <= i < items@.len() {
                        json_model(items@[i])
                    } else {
                        JsonModel::Null
                    },
            ),
        ),
        Json::Object(entries) => JsonModel::Object(
            Seq::new(
                entries@.len(),
                |i: int|
                    if 0 <= i < entries@.len() {
                        (entries@[i].0@, json_model(entries@[i].1))
                    } else {
                        (seq![], JsonModel::Null)
                    },
            ),
        ),
    }
}

impl View for Json {
    type V = JsonModel;

    open spec fn view(&self) -> JsonModel {
        json_model(*self)
    }
}

/// The values behind a vector of them.
pub open spec fn json_models(items: Seq<Json>) -> Seq<JsonModel> {
    Seq::new(items.len(), |i: int| items[i]@)
}

/// The entries behind a vector of them.
pub open spec fn entry_models(entries: Seq<(String, Json)>) -> Seq<(Seq<char>, JsonModel)> {
    Seq::new(entries.len(), |i: int| (entries[i].0@, entries[i].1@))
}

pub proof fn lemma_json_array(items: Vec<Json>)
    ensures
        Json::Array(items)@ == JsonModel::Array(json_models(items@)),
{
    assert(Json::Array(items)@->Array_0 =~= json_models(items@));
}

pub proof fn lemma_json_object(entries: Vec<(String, Json)>)
    ensures
        Json::Object(entries)@ == JsonModel::Object(entry_models(entries@)),
{
    assert(Json::Object(entries)@->Object_0 =~= entry_models(entries@));
}

/// Whether no name is twice in any object.
pub open spec fn json_valid(j: JsonModel) -> bool
    decreases j,
{
    match j {
        JsonModel::Array(items) => forall|i: int|
            0 <= i < items.len() ==> json_valid(#[trigger] items[i]),
        JsonModel::Object(entries) => distinct_keys(entries) && (forall|i: int|
            0 <= i < entries.len() ==> json_valid(#[trigger] entries[i].1)),
        _ => true,
    }
}

/// A value that can't be used, and why.
#[derive(Debug)]
pub struct JsonError(pub String);

impl JsonError {
    /// The text of the error.
    pub fn to_string(&self) -> (r: String)
        ensures
            r@ == self.0@,
    {
        self.0.clone()
    }
}

fn error(message: &str) -> (e: JsonError)
    ensures
        e.0@ == message@,
{
    JsonError(String::from_str(message))
}

// ---------------------------------------------------------------------
// What tagged JSON is.

/// Whether a float is neither NaN nor infinite.
pub open spec fn finite(bits: u64) -> bool {
    magnitude(bits) < 0x7FF0_0000_0000_0000
}

/// The bits of the one NaN that JSON can say.
pub const NAN_BITS: u64 = 0x7FF8_0000_0000_0000;

pub const INFINITY_BITS: u64 = 0x7FF0_0000_0000_0000;

pub const NEG_INFINITY_BITS: u64 = 0xFFF0_0000_0000_0000;

/// How a float that is no JSON number is called.
pub open spec fn non_finite_name(bits: u64) -> Seq<char> {
    if nan(bits) {
        "NaN"@
    } else if bits < 0x8000_0000_0000_0000 {
        "Infinity"@
    } else {
        "-Infinity"@
    }
}

/// An object with one entry.
pub open spec fn tagged_model(tag: Seq<char>, value: JsonModel) -> JsonModel {
    JsonModel::Object(seq![(tag, value)])
}

/// Whether entries would be read as a tag.
pub open spec fn looks_tagged<T>(entries: Seq<(Seq<char>, T)>) -> bool {
    entries.len() == 1 && is_tag_name(entries[0].0)
}

/// A document as tagged JSON.
pub open spec fn json_of(m: DocModel) -> JsonModel
    decreases m,
{
    match m {
        DocModel::Null => JsonModel::Null,
        DocModel::Bool(b) => JsonModel::Bool(b),
        DocModel::Int(n) => JsonModel::Int(n),
        DocModel::Float(f) => if finite(f) {
            JsonModel::Float(f)
        } else {
            tagged_model("$float"@, JsonModel::String(non_finite_name(f)))
        },
        DocModel::String(s) => JsonModel::String(s),
        DocModel::Binary(b) => tagged_model(
            "$binary"@,
            JsonModel::String(decode_utf8(base64_of(b))),
        ),
        DocModel::Id(b) => tagged_model("$id"@, JsonModel::String(id_text(b))),
        DocModel::Array(items) => JsonModel::Array(
            Seq::new(
                items.len(),
                |i: int|
                    if 0 <= i < items.len() {
                        json_of(items[i])
                    } else {
                        JsonModel::Null
                    },
            ),
        ),
        DocModel::Object(entries) => {
            let fields = Seq::new(
                entries.len(),
                |i: int|
                    if 0 <= i < entries.len() {
                        (entries[i].0, json_of(entries[i].1))
                    } else {
                        (seq![], JsonModel::Null)
                    },
            );
            if looks_tagged(entries) {
                tagged_model("$object"@, JsonModel::Object(fields))
            } else {
                JsonModel::Object(fields)
            }
        },
    }
}

/// An object's fields as tagged JSON.
pub open spec fn fields_json(entries: Seq<(Seq<char>, DocModel)>) -> Seq<(Seq<char>, JsonModel)> {
    Seq::new(entries.len(), |i: int| (entries[i].0, json_of(entries[i].1)))
}

/// The document that tagged JSON stands for; `None` if it stands for none:
/// an integer outside `i64`, or a malformed tag.
pub open spec fn doc_of(j: JsonModel) -> Option<DocModel>
    decreases j, 1int,
{
    match j {
        JsonModel::Null => Some(DocModel::Null),
        JsonModel::Bool(b) => Some(DocModel::Bool(b)),
        JsonModel::Int(n) => Some(DocModel::Int(n)),
        JsonModel::UInt(n) => if n <= i64::MAX {
            Some(DocModel::Int(n as i64))
        } else {
            None
        },
        JsonModel::Float(f) => Some(DocModel::Float(f)),
        JsonModel::String(s) => Some(DocModel::String(s)),
        JsonModel::Array(items) => if forall|i: int|
            0 <= i < items.len() ==> doc_of(#[trigger] items[i]) is Some {
            Some(
                DocModel::Array(
                    Seq::new(
                        items.len(),
                        |i: int|
                            if 0 <= i < items.len() {
                                doc_of(items[i])->Some_0
                            } else {
                                DocModel::Null
                            },
                    ),
                ),
            )
        } else {
            None
        },
        JsonModel::Object(entries) => if looks_tagged(entries) {
            tag_doc(j)
        } else {
            object_doc(j)
        },
    }
}

/// The document that a tag stands for.
pub open spec fn tag_doc(j: JsonModel) -> Option<DocModel>
    decreases j, 0int,
{
    match j {
        JsonModel::Object(entries) => if entries.len() == 1 {
            let tag = entries[0].0;
            match entries[0].1 {
                JsonModel::String(s) => if tag == "$id"@ {
                    match parsed_id(s) {
                        Some(id) => Some(DocModel::Id(id)),
                        None => None,
                    }
                } else if tag == "$binary"@ {
                    match base64_bytes(encode_utf8(s)) {
                        Some(bytes) => Some(DocModel::Binary(bytes)),
                        None => None,
                    }
                } else if tag == "$float"@ {
                    if s == "NaN"@ {
                        Some(DocModel::Float(NAN_BITS))
                    } else if s == "Infinity"@ {
                        Some(DocModel::Float(INFINITY_BITS))
                    } else if s == "-Infinity"@ {
                        Some(DocModel::Float(NEG_INFINITY_BITS))
                    } else {
                        None
                    }
                } else {
                    None
                },
                JsonModel::Object(_) => if tag == "$object"@ {
                    object_doc(entries[0].1)
                } else {
                    None
                },
                _ => None,
            }
        } else {
            None
        },
        _ => None,
    }
}

/// The object that an object stands for, tag or not.
pub open spec fn object_doc(j: JsonModel) -> Option<DocModel>
    decreases j, 0int,
{
    match j {
        JsonModel::Object(entries) => if forall|i: int|
            0 <= i < entries.len() ==> doc_of((#[trigger] entries[i]).1) is Some {
            Some(
                DocModel::Object(
                    Seq::new(
                        entries.len(),
                        |i: int|
                            if 0 <= i < entries.len() {
                                (entries[i].0, doc_of(entries[i].1)->Some_0)
                            } else {
                                (seq![], DocModel::Null)
                            },
                    ),
                ),
            )
        } else {
            None
        },
        _ => None,
    }
}

/// What is wrong with an unsigned integer that is too large.
pub open spec fn too_large_text(n: u64) -> Seq<char> {
    decimal(n as nat) + " doesn't fit in an i64"@
}

/// What is wrong with a tag that holds something else than it should.
pub open spec fn wrong_tag_text(tag: Seq<char>) -> Seq<char> {
    if tag == "$value"@ {
        "`$value` is only allowed at the top of a document line"@
    } else if tag == "$object"@ {
        "`$object` must hold an object"@
    } else {
        "`"@ + tag + "` must hold a string"@
    }
}

/// Whether this is what is wrong with a value that stands for no document: said
/// of the first part of it that stands for none.
pub open spec fn json_complaint(j: JsonModel, text: Seq<char>) -> bool
    decreases j, 1int,
{
    match j {
        JsonModel::UInt(n) => n > i64::MAX && text == too_large_text(n),
        JsonModel::Array(items) => exists|i: int|
            0 <= i < items.len() && json_complaint(#[trigger] items[i], text) && forall|k: int|
                0 <= k < i ==> doc_of(#[trigger] items[k]) is Some,
        JsonModel::Object(entries) => if looks_tagged(entries) {
            tag_complaint(j, text)
        } else {
            object_complaint(j, text)
        },
        _ => false,
    }
}

/// Whether this is what is wrong with a tag.
pub open spec fn tag_complaint(j: JsonModel, text: Seq<char>) -> bool
    decreases j, 0int,
{
    match j {
        JsonModel::Object(entries) => entries.len() == 1 && {
            let tag = entries[0].0;
            match entries[0].1 {
                JsonModel::String(s) => if tag == "$id"@ {
                    text == "`$id` "@ + quoted_text(s) + " is not a UUID"@
                } else if tag == "$binary"@ {
                    text == "`$binary` "@ + quoted_text(s) + " is not base64"@
                } else if tag == "$float"@ {
                    text == "`$float` must be \"NaN\", \"Infinity\" or \"-Infinity\", got "@
                        + quoted_text(s)
                } else {
                    text == wrong_tag_text(tag)
                },
                JsonModel::Object(_) => if tag == "$object"@ {
                    object_complaint(entries[0].1, text)
                } else {
                    text == wrong_tag_text(tag)
                },
                _ => text == wrong_tag_text(tag),
            }
        },
        _ => false,
    }
}

/// Whether this is what is wrong with an object, tag or not.
pub open spec fn object_complaint(j: JsonModel, text: Seq<char>) -> bool
    decreases j, 0int,
{
    match j {
        JsonModel::Object(entries) => exists|i: int|
            0 <= i < entries.len() && json_complaint((#[trigger] entries[i]).1, text) && forall|
                k: int,
            |
                0 <= k < i ==> doc_of((#[trigger] entries[k]).1) is Some,
        _ => false,
    }
}

/// Whether every NaN in a document is the one that JSON can say.
pub open spec fn plain_nans(m: DocModel) -> bool
    decreases m,
{
    match m {
        DocModel::Float(f) => nan(f) ==> f == NAN_BITS,
        DocModel::Array(items) => forall|i: int|
            0 <= i < items.len() ==> plain_nans(#[trigger] items[i]),
        DocModel::Object(entries) => forall|i: int|
            0 <= i < entries.len() ==> plain_nans((#[trigger] entries[i]).1),
        _ => true,
    }
}

/// The tags, and that no two are the same.
pub proof fn lemma_tags()
    ensures
        is_tag_name("$id"@) && is_tag_name("$binary"@) && is_tag_name("$float"@) && is_tag_name(
            "$object"@,
        ) && is_tag_name("$value"@),
        "$id"@ != "$binary"@ && "$id"@ != "$float"@ && "$id"@ != "$object"@ && "$id"@ != "$value"@,
        "$binary"@ != "$float"@ && "$binary"@ != "$object"@ && "$binary"@ != "$value"@,
        "$float"@ != "$object"@ && "$float"@ != "$value"@ && "$object"@ != "$value"@,
        !is_tag_name("_id"@),
        "_id"@ != "$value"@ && "_id"@ != "$object"@,
        "NaN"@ != "Infinity"@ && "NaN"@ != "-Infinity"@ && "Infinity"@ != "-Infinity"@,
{
    reveal_strlit("$id");
    reveal_strlit("$binary");
    reveal_strlit("$float");
    reveal_strlit("$object");
    reveal_strlit("$value");
    reveal_strlit("_id");
    reveal_strlit("NaN");
    reveal_strlit("Infinity");
    reveal_strlit("-Infinity");
    assert("$id"@[1] == 'i');
    assert("$binary"@[1] == 'b');
    assert("$float"@[1] == 'f');
    assert("$object"@[1] == 'o');
    assert("$value"@[1] == 'v');
    assert("_id"@[0] == '_');
    assert("$id"@[0] == '$');
    assert("NaN"@.len() == 3);
    assert("Infinity"@.len() == 8);
    assert("-Infinity"@.len() == 9);
}

/// Fields read back, each.
proof fn lemma_fields_read_back(entries: Seq<(Seq<char>, DocModel)>)
    requires
        forall|i: int|
            0 <= i < entries.len() ==> doc_of(json_of((#[trigger] entries[i]).1)) == Some(
                entries[i].1,
            ),
    ensures
        object_doc(JsonModel::Object(fields_json(entries))) == Some(DocModel::Object(entries)),
{
    let fields = fields_json(entries);
    assert forall|i: int| 0 <= i < fields.len() implies doc_of((#[trigger] fields[i]).1) is Some by {
        assert(doc_of(json_of(entries[i].1)) == Some(entries[i].1));
    }
    let back = object_doc(JsonModel::Object(fields))->Some_0->Object_0;
    assert forall|i: int| 0 <= i < entries.len() implies back[i] == entries[i] by {
        assert(doc_of(json_of(entries[i].1)) == Some(entries[i].1));
        assert(fields[i].0 == entries[i].0);
    }
    assert(back =~= entries);
}

proof fn lemma_float_reads_back(f: u64)
    requires
        plain_nans(DocModel::Float(f)),
    ensures
        doc_of(json_of(DocModel::Float(f))) == Some(DocModel::Float(f)),
{
    lemma_tags();
    let m = DocModel::Float(f);
    if finite(f) {
        let j = JsonModel::Float(f);
        assert(json_of(m) == j);
        assert(doc_of(j) == Some(m));
    } else {
        let name = non_finite_name(f);
        let entries = seq![("$float"@, JsonModel::String(name))];
        let j = JsonModel::Object(entries);
        assert(json_of(m) == j);
        assert(entries[0] == ("$float"@, JsonModel::String(name)));
        assert(doc_of(j) == tag_doc(j));
        if nan(f) {
            assert(tag_doc(j) == Some(DocModel::Float(NAN_BITS)));
        } else if f < 0x8000_0000_0000_0000 {
            assert(f == INFINITY_BITS);
            assert(tag_doc(j) == Some(DocModel::Float(INFINITY_BITS)));
        } else {
            assert(f == NEG_INFINITY_BITS);
            assert(tag_doc(j) == Some(DocModel::Float(NEG_INFINITY_BITS)));
        }
    }
}

/// A document's tagged JSON reads back as the document.
pub proof fn json_reads_back(m: DocModel)
    requires
        valid(m),
        plain_nans(m),
    ensures
        doc_of(json_of(m)) == Some(m),
    decreases m,
{
    lemma_tags();
    match m {
        DocModel::Float(f) => {
            lemma_float_reads_back(f);
        },
        DocModel::Binary(b) => {
            base64_reads_back(b);
            lemma_base64_ascii(b);
            lemma_ascii(base64_of(b));
            let text = JsonModel::String(decode_utf8(base64_of(b)));
            let entries = seq![("$binary"@, text)];
            let j = JsonModel::Object(entries);
            assert(json_of(m) == j);
            assert(entries[0] == ("$binary"@, text));
            assert(doc_of(j) == tag_doc(j));
            assert(tag_doc(j) == Some(m));
        },
        DocModel::Id(b) => {
            id_reads_back(b);
            let text = JsonModel::String(id_text(b));
            let entries = seq![("$id"@, text)];
            let j = JsonModel::Object(entries);
            assert(json_of(m) == j);
            assert(entries[0] == ("$id"@, text));
            assert(doc_of(j) == tag_doc(j));
            assert(tag_doc(j) == Some(m));
        },
        DocModel::Array(items) => {
            let values = json_of(m)->Array_0;
            assert forall|i: int| 0 <= i < items.len() implies doc_of(#[trigger] values[i]) == Some(
                items[i],
            ) by {
                assert(valid(items[i]));
                assert(plain_nans(items[i]));
                json_reads_back(items[i]);
            }
            let back = doc_of(json_of(m))->Some_0->Array_0;
            assert(back =~= items);
            assert(doc_of(json_of(m)) == Some(m));
        },
        DocModel::Object(entries) => {
            assert forall|i: int| 0 <= i < entries.len() implies doc_of(
                json_of((#[trigger] entries[i]).1),
            ) == Some(entries[i].1) by {
                assert(valid(entries[i].1));
                json_reads_back(entries[i].1);
            }
            lemma_fields_read_back(entries);
            let fields = fields_json(entries);
            if looks_tagged(entries) {
                assert(json_of(m) =~= tagged_model("$object"@, JsonModel::Object(fields))) by {
                    assert(json_of(m)->Object_0[0].1->Object_0 =~= fields);
                }
                let wrapped = seq![("$object"@, JsonModel::Object(fields))];
                let j = JsonModel::Object(wrapped);
                assert(json_of(m) == j);
                assert(wrapped[0] == ("$object"@, JsonModel::Object(fields)));
                assert(doc_of(j) == tag_doc(j));
                assert(tag_doc(j) == object_doc(JsonModel::Object(fields)));
                assert(doc_of(json_of(m)) == Some(m));
            } else {
                assert(json_of(m)->Object_0 =~= fields);
                let j = JsonModel::Object(fields);
                if fields.len() == 1 {
                    assert(fields[0].0 == entries[0].0);
                }
                assert(doc_of(j) == object_doc(j));
                assert(doc_of(json_of(m)) == Some(m));
            }
        },
        DocModel::Null => {
            assert(doc_of(JsonModel::Null) == Some(m));
        },
        DocModel::Bool(b) => {
            assert(doc_of(JsonModel::Bool(b)) == Some(m));
        },
        DocModel::Int(n) => {
            assert(doc_of(JsonModel::Int(n)) == Some(m));
        },
        DocModel::String(s) => {
            assert(doc_of(JsonModel::String(s)) == Some(m));
        },
    }
}

// ---------------------------------------------------------------------
// Converting.

fn tagged(tag: &str, value: Json) -> (r: Json)
    ensures
        r@ == tagged_model(tag@, value@),
{
    let mut entries: Vec<(String, Json)> = Vec::new();
    entries.push((String::from_str(tag), value));
    proof {
        lemma_json_object(entries);
        assert(entry_models(entries@) =~= seq![(tag@, value@)]);
    }
    Json::Object(entries)
}

/// A document as tagged JSON.
pub fn to_json(doc: &Document) -> (r: Json)
    ensures
        r@ == json_of(doc@),
    decreases doc@, 1int,
{
    match doc {
        Document::Null => Json::Null,
        Document::Bool(b) => Json::Bool(*b),
        Document::Int(n) => Json::Int(*n),
        Document::Float(f) => {
            if *f % 0x8000_0000_0000_0000 < 0x7FF0_0000_0000_0000 {
                Json::Float(*f)
            } else {
                let name: &str = if float_is_nan(*f) {
                    "NaN"
                } else if *f < 0x8000_0000_0000_0000 {
                    "Infinity"
                } else {
                    "-Infinity"
                };
                tagged("$float", Json::String(String::from_str(name)))
            }
        },
        Document::String(s) => Json::String(s.clone()),
        Document::Binary(bytes) => {
            let text = base64_encode(bytes.as_slice());
            proof {
                lemma_base64_ascii(bytes@);
                lemma_ascii(base64_of(bytes@));
                lemma_utf8_injective(text@, decode_utf8(base64_of(bytes@)));
            }
            tagged("$binary", Json::String(text))
        },
        Document::Id(id) => tagged("$id", Json::String(id.to_string())),
        Document::Array(items) => {
            let n: usize = items.len();
            let mut values: Vec<Json> = Vec::new();
            proof {
                lemma_array_view(*items);
            }
            for i in 0..n
                invariant
                    n == items@.len(),
                    doc@ == DocModel::Array(models(items@)),
                    values@.len() == i,
                    forall|k: int| 0 <= k < i ==> (#[trigger] values@[k])@ == json_of(items@[k]@),
            {
                assert(decreases_to!(doc@ => doc@->Array_0[i as int]));
                let value = to_json(&items[i]);
                values.push(value);
            }
            proof {
                lemma_json_array(values);
                assert(json_models(values@) =~= json_of(doc@)->Array_0);
            }
            Json::Array(values)
        },
        Document::Object(fields) => {
            let object = object_to_json(fields);
            proof {
                lemma_json_object(object);
                assert(fields_json(fields@) =~= (if looks_tagged(fields@) {
                    json_of(doc@)->Object_0[0].1->Object_0
                } else {
                    json_of(doc@)->Object_0
                }));
            }
            if object_looks_tagged(&object) {
                proof {
                    assert(entry_models(object@)[0].0 == fields@[0].0);
                }
                tagged("$object", Json::Object(object))
            } else {
                proof {
                    if fields@.len() == 1 {
                        assert(entry_models(object@)[0].0 == fields@[0].0);
                    }
                }
                Json::Object(object)
            }
        },
    }
}

/// An object's fields as tagged JSON.
fn object_to_json(fields: &Fields) -> (r: Vec<(String, Json)>)
    ensures
        entry_models(r@) == fields_json(fields@),
    decreases DocModel::Object(fields@), 0int,
{
    let n: usize = fields.len();
    let mut entries: Vec<(String, Json)> = Vec::new();
    let ghost whole = DocModel::Object(fields@);
    for i in 0..n
        invariant
            n == fields@.len(),
            whole == DocModel::Object(fields@),
            entries@.len() == i,
            forall|k: int|
                0 <= k < i ==> (#[trigger] entries@[k]).0@ == fields@[k].0 && entries@[k].1@
                    == json_of(fields@[k].1),
    {
        let (key, value) = fields.entry_at(i);
        assert(decreases_to!(whole => whole->Object_0[i as int].1));
        let json = to_json(value);
        entries.push((key.clone(), json));
    }
    assert(entry_models(entries@) =~= fields_json(fields@));
    entries
}

/// Whether an object would be read as a tag.
fn object_looks_tagged(entries: &Vec<(String, Json)>) -> (r: bool)
    ensures
        r == looks_tagged(entry_models(entries@)),
{
    entries.len() == 1 && is_tag(entries[0].0.as_str())
}

/// Tagged JSON back to a document. Accepts any JSON, except integers outside
/// `i64` and malformed tags.
pub fn from_json(value: &Json) -> (r: Result<Document, JsonError>)
    requires
        json_valid(value@),
    ensures
        match r {
            Ok(doc) => doc_of(value@) == Some(doc@),
            Err(e) => doc_of(value@) is None && json_complaint(value@, e.0@),
        },
    decreases value@, 1int,
{
    match value {
        Json::Null => Ok(Document::Null),
        Json::Bool(b) => Ok(Document::Bool(*b)),
        Json::Int(n) => Ok(Document::Int(*n)),
        Json::UInt(n) => {
            if *n <= i64::MAX as u64 {
                Ok(Document::Int(*n as i64))
            } else {
                let number = decimal_text(*n);
                let message = join(&[number.as_str(), " doesn't fit in an i64"]);
                proof {
                    reveal_with_fuel(joined, 3);
                    assert(message@ =~= too_large_text(*n));
                }
                Err(JsonError(message))
            }
        },
        Json::Float(f) => Ok(Document::Float(*f)),
        Json::String(s) => Ok(Document::String(s.clone())),
        Json::Array(items) => {
            let n: usize = items.len();
            let mut docs: Vec<Document> = Vec::new();
            proof {
                lemma_json_array(*items);
            }
            for i in 0..n
                invariant
                    n == items@.len(),
                    json_valid(value@),
                    value@ == JsonModel::Array(json_models(items@)),
                    docs@.len() == i,
                    forall|k: int|
                        0 <= k < i ==> doc_of(json_models(items@)[k]) == Some(
                            (#[trigger] docs@[k])@,
                        ),
            {
                let ghost all = json_models(items@);
                assert(decreases_to!(value@ => value@->Array_0[i as int]));
                assert(json_valid(all[i as int]));
                match from_json(&items[i]) {
                    Ok(doc) => docs.push(doc),
                    Err(e) => {
                        assert(doc_of(all[i as int]) is None);
                        proof {
                            assert forall|k: int| 0 <= k < i implies doc_of(
                                #[trigger] all[k],
                            ) is Some by {
                                assert(doc_of(all[k]) == Some(docs@[k]@));
                            }
                            assert(json_complaint(all[i as int], e.0@));
                        }
                        return Err(e);
                    },
                }
            }
            proof {
                lemma_array_view(docs);
                let all = json_models(items@);
                assert forall|k: int| 0 <= k < all.len() implies doc_of(#[trigger] all[k]) is Some by {
                    assert(doc_of(all[k]) == Some(docs@[k]@));
                }
                let back = doc_of(value@)->Some_0->Array_0;
                assert forall|k: int| 0 <= k < back.len() implies back[k] == models(docs@)[k] by {
                    assert(doc_of(all[k]) == Some(docs@[k]@));
                }
                assert(models(docs@) =~= back);
            }
            Ok(Document::Array(docs))
        },
        Json::Object(entries) => {
            proof {
                lemma_json_object(*entries);
            }
            if object_looks_tagged(entries) {
                from_tag(value, entries)
            } else {
                object_from_json(value, entries)
            }
        },
    }
}

/// The document a tag stands for.
fn from_tag(value: &Json, entries: &Vec<(String, Json)>) -> (r: Result<Document, JsonError>)
    requires
        *value == Json::Object(*entries),
        json_valid(value@),
        looks_tagged(entry_models(entries@)),
    ensures
        match r {
            Ok(doc) => tag_doc(value@) == Some(doc@),
            Err(e) => tag_doc(value@) is None && tag_complaint(value@, e.0@),
        },
    decreases value@, 0int,
{
    proof {
        lemma_json_object(*entries);
        lemma_tags();
    }
    let ghost all = entry_models(entries@);
    assert(all[0] == (entries@[0].0@, entries@[0].1@));
    let tag: &str = entries[0].0.as_str();
    let inner: &Json = &entries[0].1;
    match inner {
        Json::String(text) => {
            if str_equal(tag, "$id") {
                return match DocId::parse(text.as_str()) {
                    Some(id) => Ok(Document::Id(id)),
                    None => {
                        let shown = quoted(text.as_str());
                        let message = join(&["`$id` ", shown.as_str(), " is not a UUID"]);
                        proof {
                            reveal_with_fuel(joined, 4);
                            assert(message@ =~= "`$id` "@ + quoted_text(text@) + " is not a UUID"@);
                        }
                        Err(JsonError(message))
                    },
                };
            }
            if str_equal(tag, "$binary") {
                return match base64_decode(text.as_str()) {
                    Some(bytes) => Ok(Document::Binary(bytes)),
                    None => {
                        let shown = quoted(text.as_str());
                        let message = join(&["`$binary` ", shown.as_str(), " is not base64"]);
                        proof {
                            reveal_with_fuel(joined, 4);
                            assert(message@ =~= "`$binary` "@ + quoted_text(text@) + " is not base64"@);
                        }
                        Err(JsonError(message))
                    },
                };
            }
            if str_equal(tag, "$float") {
                if str_equal(text.as_str(), "NaN") {
                    return Ok(Document::Float(NAN_BITS));
                }
                if str_equal(text.as_str(), "Infinity") {
                    return Ok(Document::Float(INFINITY_BITS));
                }
                if str_equal(text.as_str(), "-Infinity") {
                    return Ok(Document::Float(NEG_INFINITY_BITS));
                }
                let shown = quoted(text.as_str());
                let message = join(
                    &[
                        "`$float` must be \"NaN\", \"Infinity\" or \"-Infinity\", got ",
                        shown.as_str(),
                    ],
                );
                proof {
                    reveal_with_fuel(joined, 3);
                    assert(message@
                        =~= "`$float` must be \"NaN\", \"Infinity\" or \"-Infinity\", got "@
                        + quoted_text(text@));
                }
                return Err(JsonError(message));
            }
        },
        Json::Object(fields) => {
            proof {
                lemma_json_object(*fields);
            }
            if str_equal(tag, "$object") {
                proof {
                    assert(json_valid(all[0].1));
                    assert(decreases_to!(value@ => value@->Object_0[0].1));
                }
                return object_from_json(inner, fields);
            }
        },
        _ => {},
    }
    if str_equal(tag, "$value") {
        return Err(error("`$value` is only allowed at the top of a document line"));
    }
    if str_equal(tag, "$object") {
        return Err(error("`$object` must hold an object"));
    }
    let message = join(&["`", tag, "` must hold a string"]);
    proof {
        reveal_with_fuel(joined, 4);
        assert(message@ =~= wrong_tag_text(tag@));
    }
    Err(JsonError(message))
}

/// An object's fields, whatever their names.
fn object_from_json(value: &Json, entries: &Vec<(String, Json)>) -> (r: Result<Document, JsonError>)
    requires
        *value == Json::Object(*entries),
        json_valid(value@),
    ensures
        match r {
            Ok(doc) => object_doc(value@) == Some(doc@),
            Err(e) => object_doc(value@) is None && object_complaint(value@, e.0@),
        },
    decreases value@, 0int,
{
    let n: usize = entries.len();
    let mut fields = Fields::new();
    let ghost all = entry_models(entries@);
    proof {
        lemma_json_object(*entries);
    }
    for i in 0..n
        invariant
            n == entries@.len(),
            all == entry_models(entries@),
            value@ == JsonModel::Object(all),
            json_valid(value@),
            fields@.len() == i,
            forall|k: int|
                0 <= k < i ==> (#[trigger] fields@[k]).0 == all[k].0 && doc_of(all[k].1) == Some(
                    fields@[k].1,
                ),
    {
        assert(all[i as int] == (entries@[i as int].0@, entries@[i as int].1@));
        assert(decreases_to!(value@ => value@->Object_0[i as int].1));
        assert(json_valid(all[i as int].1));
        match from_json(&entries[i].1) {
            Ok(doc) => {
                let ghost before = fields@;
                let ghost name = all[i as int].0;
                proof {
                    assert forall|k: int| 0 <= k < i implies (#[trigger] before[k]).0 != name by {
                        assert(all[k].0 != all[i as int].0);
                    }
                    lemma_position_is(before, name, i as int);
                }
                fields.insert(entries[i].0.clone(), doc);
            },
            Err(e) => {
                assert(doc_of(all[i as int].1) is None);
                proof {
                    assert forall|k: int| 0 <= k < i implies doc_of((#[trigger] all[k]).1) is Some by {
                        assert(fields@[k].0 == all[k].0);
                    }
                    assert(json_complaint(all[i as int].1, e.0@));
                }
                return Err(e);
            },
        }
    }
    proof {
        assert forall|k: int| 0 <= k < all.len() implies doc_of((#[trigger] all[k]).1) is Some by {
            assert(fields@[k].0 == all[k].0);
        }
        let back = object_doc(value@)->Some_0->Object_0;
        assert forall|k: int| 0 <= k < back.len() implies back[k] == fields@[k] by {
            assert(fields@[k].0 == all[k].0);
        }
        assert(back =~= fields@);
    }
    Ok(Document::Object(fields))
}

// ---------------------------------------------------------------------
// Lines of an export.

/// One document of an export: an object as itself (it already holds its
/// `_id`). Any other document has no field for its id, so it's wrapped:
/// `{"_id": {"$id": ...}, "$value": <the document>}`. An object whose only
/// field besides `_id` has a tag name is written whole inside `$object`,
/// with its `_id` repeated outside, so it can't be read as that wrapper.
pub open spec fn line_of(id: Seq<u8>, m: DocModel) -> JsonModel {
    let id_json = json_of(DocModel::Id(id));
    match m {
        DocModel::Object(entries) => if tag_like(entries) {
            JsonModel::Object(
                seq![
                    ("_id"@, id_json),
                    ("$object"@, JsonModel::Object(fields_json(entries))),
                ],
            )
        } else {
            JsonModel::Object(fields_json(entries))
        },
        _ => JsonModel::Object(seq![("_id"@, id_json), ("$value"@, json_of(m))]),
    }
}

/// The place of the only entry besides `_id`, if there is one.
pub open spec fn only_other<T>(entries: Seq<(Seq<char>, T)>) -> Option<int> {
    if exists|i: int|
        0 <= i < entries.len() && (#[trigger] entries[i]).0 != "_id"@ && (forall|j: int|
            0 <= j < entries.len() && j != i ==> (#[trigger] entries[j]).0 == "_id"@) {
        Some(
            choose|i: int|
                0 <= i < entries.len() && (#[trigger] entries[i]).0 != "_id"@ && (forall|j: int|
                    0 <= j < entries.len() && j != i ==> (#[trigger] entries[j]).0 == "_id"@),
        )
    } else {
        None
    }
}

/// The id that a line gives: `None` if it gives a bad one.
pub open spec fn line_id(entries: Seq<(Seq<char>, JsonModel)>) -> Option<Option<Seq<u8>>> {
    match lookup(entries, "_id"@) {
        None => Some(None),
        Some(value) => match doc_of(value) {
            Some(DocModel::Id(id)) => Some(Some(id)),
            _ => None,
        },
    }
}

/// The document that a line gives.
pub open spec fn line_doc(j: JsonModel) -> Option<DocModel> {
    match j {
        JsonModel::Object(entries) => match only_other(entries) {
            Some(i) => if entries[i].0 == "$value"@ {
                doc_of(entries[i].1)
            } else if entries[i].0 == "$object"@ {
                object_doc(entries[i].1)
            } else {
                object_doc(j)
            },
            None => object_doc(j),
        },
        _ => None,
    }
}

/// What a document line says: the document, and its id if it has one.
pub open spec fn parsed_line(j: JsonModel) -> Option<(Option<Seq<u8>>, DocModel)> {
    match j {
        JsonModel::Object(entries) => match (line_id(entries), line_doc(j)) {
            (Some(id), Some(doc)) => Some((id, doc)),
            _ => None,
        },
        _ => None,
    }
}

/// Whether this is what is wrong with a document line: with its id first, then
/// with what it holds.
pub open spec fn document_complaint(j: JsonModel, text: Seq<char>) -> bool {
    match j {
        JsonModel::Object(entries) => match lookup(entries, "_id"@) {
            Some(id) => match doc_of(id) {
                Some(DocModel::Id(_)) => held_complaint(j, text),
                Some(_) => text
                    == "`_id` must be {\"$id\": \"<uuid>\"}; leave it out to get a new id"@,
                None => json_complaint(id, text),
            },
            None => held_complaint(j, text),
        },
        _ => text == "a document line must be a JSON object"@,
    }
}

/// Whether this is what is wrong with what a document line holds.
pub open spec fn held_complaint(j: JsonModel, text: Seq<char>) -> bool {
    match j {
        JsonModel::Object(entries) => match only_other(entries) {
            Some(i) => if entries[i].0 == "$value"@ {
                json_complaint(entries[i].1, text)
            } else if entries[i].0 == "$object"@ {
                match entries[i].1 {
                    JsonModel::Object(_) => object_complaint(entries[i].1, text),
                    _ => text == wrong_tag_text("$object"@),
                }
            } else {
                object_complaint(j, text)
            },
            None => object_complaint(j, text),
        },
        _ => false,
    }
}

/// The one entry besides `_id`.
proof fn lemma_only_other<T>(entries: Seq<(Seq<char>, T)>, i: int)
    requires
        0 <= i < entries.len(),
        entries[i].0 != "_id"@,
        forall|j: int| 0 <= j < entries.len() && j != i ==> (#[trigger] entries[j]).0 == "_id"@,
    ensures
        only_other(entries) == Some(i),
{
    let k = only_other(entries)->Some_0;
    if k != i {
        assert(entries[i].0 == "_id"@);
    }
}

/// A wrapped document reads back.
proof fn lemma_wrapped_line(id: Seq<u8>, name: Seq<char>, value: JsonModel)
    requires
        id.len() == 16,
        name != "_id"@,
    ensures
        ({
            let line = seq![("_id"@, json_of(DocModel::Id(id))), (name, value)];
            only_other(line) == Some(1int) && line_id(line) == Some(Some(id))
        }),
{
    let m = DocModel::Id(id);
    let line = seq![("_id"@, json_of(m)), (name, value)];
    json_reads_back(m);
    assert(line[0] == ("_id"@, json_of(m)) && line[1] == (name, value));
    lemma_only_other(line, 1);
    lemma_position_is(line, "_id"@, 0);
}

/// An object with its own id reads back.
proof fn lemma_object_line(id: Seq<u8>, entries: Seq<(Seq<char>, DocModel)>)
    requires
        id.len() == 16,
        !tag_like(entries),
        lookup(entries, "_id"@) == Some(DocModel::Id(id)),
    ensures
        ({
            let fields = fields_json(entries);
            line_id(fields) == Some(Some(id)) && (only_other(fields) matches Some(i) ==> 0 <= i
                < fields.len() && fields[i].0 != "$value"@ && fields[i].0 != "$object"@)
        }),
{
    lemma_tags();
    json_reads_back(DocModel::Id(id));
    let fields = fields_json(entries);
    lemma_entry_position(entries, "_id"@);
    let at = entry_position(entries, "_id"@);
    assert forall|j: int| 0 <= j < at implies (#[trigger] fields[j]).0 != "_id"@ by {
        assert(entries[j].0 != "_id"@);
    }
    assert(fields[at] == ("_id"@, json_of(DocModel::Id(id))));
    lemma_position_is(fields, "_id"@, at);
    match only_other(fields) {
        Some(i) => {
            assert(fields[i].0 == entries[i].0);
            assert forall|j: int| 0 <= j < entries.len() && j != i implies #[trigger] entries[j].0
                == "_id"@ by {
                assert(fields[j].0 == entries[j].0);
            }
            assert(!is_tag_name(entries[i].0));
        },
        None => {},
    }
}

/// A document's line reads back as the document and its id: if an object
/// holds its own id, as a stored one does.
pub proof fn line_reads_back(id: Seq<u8>, m: DocModel)
    requires
        valid(m),
        plain_nans(m),
        id.len() == 16,
        m matches DocModel::Object(entries) ==> lookup(entries, "_id"@) == Some(DocModel::Id(id)),
    ensures
        parsed_line(line_of(id, m)) == Some((Some(id), m)),
{
    lemma_tags();
    let id_json = json_of(DocModel::Id(id));
    match m {
        DocModel::Object(entries) => {
            assert forall|i: int| 0 <= i < entries.len() implies doc_of(
                json_of((#[trigger] entries[i]).1),
            ) == Some(entries[i].1) by {
                assert(valid(entries[i].1));
                json_reads_back(entries[i].1);
            }
            lemma_fields_read_back(entries);
            let fields = fields_json(entries);
            if tag_like(entries) {
                let inner = JsonModel::Object(fields);
                let line = seq![("_id"@, id_json), ("$object"@, inner)];
                lemma_wrapped_line(id, "$object"@, inner);
                assert(line[1] == ("$object"@, inner));
                assert(line_doc(JsonModel::Object(line)) == object_doc(inner));
            } else {
                lemma_object_line(id, entries);
                assert(line_doc(JsonModel::Object(fields)) == object_doc(
                    JsonModel::Object(fields),
                ));
            }
        },
        _ => {
            json_reads_back(m);
            let value = json_of(m);
            let line = seq![("_id"@, id_json), ("$value"@, value)];
            lemma_wrapped_line(id, "$value"@, value);
            assert(line[1] == ("$value"@, value));
            assert(line_doc(JsonModel::Object(line)) == doc_of(value));
        },
    }
}

/// One document of an export.
pub fn document_line(id: DocId, doc: &Document) -> (r: Json)
    ensures
        r@ == line_of(id@, doc@),
{
    let id_json = to_json(&Document::Id(id));
    let mut line: Vec<(String, Json)> = Vec::new();
    match doc {
        Document::Object(fields) => {
            let object = object_to_json(fields);
            proof {
                lemma_json_object(object);
            }
            if !fields_tag_like(fields) {
                return Json::Object(object);
            }
            line.push((String::from_str("_id"), id_json));
            line.push((String::from_str("$object"), Json::Object(object)));
        },
        other => {
            line.push((String::from_str("_id"), id_json));
            line.push((String::from_str("$value"), to_json(other)));
        },
    }
    proof {
        lemma_json_object(line);
        assert(entry_models(line@) =~= line_of(id@, doc@)->Object_0);
    }
    Json::Object(line)
}

/// Where a name stands among entries; their number if it doesn't.
pub fn find_name(entries: &Vec<(String, Json)>, name: &str) -> (at: usize)
    ensures
        at == entry_position(entry_models(entries@), name@),
        at <= entries@.len(),
{
    let n: usize = entries.len();
    let ghost all = entry_models(entries@);
    for i in 0..n
        invariant
            n == entries@.len(),
            all == entry_models(entries@),
            forall|k: int| 0 <= k < i ==> (#[trigger] all[k]).0 != name@,
    {
        assert(all[i as int].0 == entries@[i as int].0@);
        if str_equal(entries[i].0.as_str(), name) {
            proof {
                lemma_position_is(all, name@, i as int);
            }
            return i;
        }
    }
    proof {
        lemma_position_is(all, name@, n as int);
    }
    n
}

/// The place of the only entry besides `_id`, if there is one.
fn find_only_other(entries: &Vec<(String, Json)>) -> (r: Option<usize>)
    ensures
        match r {
            Some(i) => only_other(entry_models(entries@)) == Some(i as int) && i < entries@.len(),
            None => only_other(entry_models(entries@)) is None,
        },
{
    let n: usize = entries.len();
    let ghost all = entry_models(entries@);
    let mut found: Option<usize> = None;
    for i in 0..n
        invariant
            n == entries@.len(),
            all == entry_models(entries@),
            match found {
                Some(at) => at < i && all[at as int].0 != "_id"@ && forall|k: int|
                    0 <= k < i && k != at ==> (#[trigger] all[k]).0 == "_id"@,
                None => forall|k: int| 0 <= k < i ==> (#[trigger] all[k]).0 == "_id"@,
            },
    {
        assert(all[i as int].0 == entries@[i as int].0@);
        if !str_equal(entries[i].0.as_str(), "_id") {
            match found {
                Some(at) => {
                    proof {
                        if only_other(all) is Some {
                            let k = only_other(all)->Some_0;
                            if k != at {
                                assert(all[at as int].0 == "_id"@);
                            } else {
                                assert(all[i as int].0 == "_id"@);
                            }
                        }
                    }
                    return None;
                },
                None => {
                    found = Some(i);
                },
            }
        }
    }
    proof {
        match found {
            Some(at) => {
                lemma_only_other(all, at as int);
            },
            None => {
                if only_other(all) is Some {
                    let k = only_other(all)->Some_0;
                    assert(all[k].0 == "_id"@);
                }
            },
        }
    }
    found
}

/// Reverses `document_line`: the document, and its id if the line has an
/// `_id` (a hand-written line may leave it out to get a new one).
pub fn parse_document_line(line: &Json) -> (r: Result<(Option<DocId>, Document), JsonError>)
    requires
        json_valid(line@),
    ensures
        match r {
            Ok((id, doc)) => parsed_line(line@) == Some(
                (
                    match id {
                        Some(id) => Some(id@),
                        None => None,
                    },
                    doc@,
                ),
            ),
            Err(e) => parsed_line(line@) is None && document_complaint(line@, e.0@),
        },
{
    proof {
        lemma_tags();
    }
    let entries: &Vec<(String, Json)> = match line {
        Json::Object(entries) => entries,
        _ => return Err(error("a document line must be a JSON object")),
    };
    let ghost all = entry_models(entries@);
    proof {
        lemma_json_object(*entries);
        lemma_entry_position(all, "_id"@);
    }
    let at: usize = find_name(entries, "_id");
    let id: Option<DocId> = if at < entries.len() {
        assert(json_valid(all[at as int].1));
        match from_json(&entries[at].1) {
            Ok(Document::Id(id)) => Some(id),
            Ok(_) => {
                return Err(
                    error("`_id` must be {\"$id\": \"<uuid>\"}; leave it out to get a new id"),
                );
            },
            Err(e) => return Err(e),
        }
    } else {
        None
    };
    let doc = match find_only_other(entries) {
        Some(i) => {
            assert(all[i as int] == (entries@[i as int].0@, entries@[i as int].1@));
            assert(json_valid(all[i as int].1));
            if str_equal(entries[i].0.as_str(), "$value") {
                from_json(&entries[i].1)
            } else if str_equal(entries[i].0.as_str(), "$object") {
                // The whole object, `_id` included, in its original order.
                let inner: &Json = &entries[i].1;
                match inner {
                    Json::Object(fields) => object_from_json(inner, fields),
                    _ => Err(error("`$object` must hold an object")),
                }
            } else {
                object_from_json(line, entries)
            }
        },
        None => object_from_json(line, entries),
    };
    match doc {
        Ok(doc) => Ok((id, doc)),
        Err(e) => Err(e),
    }
}

} // verus!

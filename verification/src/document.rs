//! The schema-less value every document is made of, and its encoding as
//! bytes.

use crate::bytes::bytes_equal;
pub use crate::encoding::{decode_document, encode_document};
use crate::number::{float_equal, float_is_nan, float_rank};
use crate::text::str_equal;
use indexmap::IndexMap;
use vstd::prelude::*;
use vstd::slice::slice_to_vec;

verus! {

/// How deeply a document may nest: the document is the first level, and
/// every object or array inside adds one. It keeps a damaged document from
/// recursing the decoder off the end of the stack.
pub const MAX_NESTING: usize = 64;

/// A document's primary key: 16 bytes, by default generated so that ids
/// created in sequence sort close together.
#[derive(Debug, Clone, Copy, PartialEq, Eq, Hash, PartialOrd, Ord)]
pub struct DocId(pub [u8; 16]);

impl View for DocId {
    type V = Seq<u8>;

    open spec fn view(&self) -> Seq<u8> {
        self.0@
    }
}

impl DocId {
    /// Whether two ids are the same.
    pub fn same(&self, other: &DocId) -> (r: bool)
        ensures
            r == (self@ == other@),
    {
        bytes_equal(self.0.as_slice(), other.0.as_slice())
    }

    /// The id with the bytes of `bytes`.
    pub fn from_slice(bytes: &[u8]) -> (id: DocId)
        requires
            bytes@.len() == 16,
        ensures
            id@ == bytes@,
    {
        let id = DocId(
            [
                bytes[0],
                bytes[1],
                bytes[2],
                bytes[3],
                bytes[4],
                bytes[5],
                bytes[6],
                bytes[7],
                bytes[8],
                bytes[9],
                bytes[10],
                bytes[11],
                bytes[12],
                bytes[13],
                bytes[14],
                bytes[15],
            ],
        );
        assert(id@ =~= bytes@);
        id
    }
}

/// What a document is, without how it is held.
#[verifier::ext_equal]
pub ghost enum DocModel {
    Null,
    Bool(bool),
    Int(i64),
    /// A float, by its IEEE 754 bits.
    Float(u64),
    String(Seq<char>),
    Binary(Seq<u8>),
    Array(Seq<DocModel>),
    /// The fields in their order, each name once.
    Object(Seq<(Seq<char>, DocModel)>),
    Id(Seq<u8>),
}

/// The schema-less value every document is made of. A float is held as its
/// IEEE 754 bits (`f64::to_bits`).
#[derive(Debug)]
pub enum Document {
    Null,
    Bool(bool),
    Int(i64),
    Float(u64),
    String(String),
    Binary(Vec<u8>),
    Array(Vec<Document>),
    Object(Fields),
    Id(DocId),
}

/// An object's fields: an `indexmap::IndexMap` from name to value, which
/// keeps its entries in the order in which they were added.
#[verifier::external_body]
#[derive(Debug)]
pub struct Fields {
    map: IndexMap<String, Document>,
}

/// The entries of the `IndexMap` behind `fields`, in their order.
pub uninterp spec fn field_entries(fields: Fields) -> Seq<(Seq<char>, DocModel)>;

impl View for Fields {
    type V = Seq<(Seq<char>, DocModel)>;

    open spec fn view(&self) -> Seq<(Seq<char>, DocModel)> {
        field_entries(*self)
    }
}

impl View for Document {
    type V = DocModel;

    open spec fn view(&self) -> DocModel {
        model(*self)
    }
}

/// What the document `doc` is.
pub open spec fn model(doc: Document) -> DocModel
    decreases doc,
{
    match doc {
        Document::Null => DocModel::Null,
        Document::Bool(b) => DocModel::Bool(b),
        Document::Int(n) => DocModel::Int(n),
        Document::Float(f) => DocModel::Float(f),
        Document::String(s) => DocModel::String(s@),
        Document::Binary(b) => DocModel::Binary(b@),
        Document::Array(items) => DocModel::Array(
            Seq::new(
                items@.len(),
                |i: int|
                    if 0 <= i < items@.len() {
                        model(items@[i])
                    } else {
                        DocModel::Null
                    },
            ),
        ),
        Document::Object(fields) => DocModel::Object(field_entries(fields)),
        Document::Id(id) => DocModel::Id(id@),
    }
}

/// The documents behind a vector of them.
pub open spec fn models(items: Seq<Document>) -> Seq<DocModel> {
    Seq::new(items.len(), |i: int| items[i]@)
}

pub proof fn lemma_array_view(items: Vec<Document>)
    ensures
        Document::Array(items)@ == DocModel::Array(models(items@)),
{
    assert(Document::Array(items)@->Array_0 =~= models(items@));
}

/// Where `key` stands among `entries`: their number if it is not there.
pub open spec fn entry_position<T>(entries: Seq<(Seq<char>, T)>, key: Seq<char>) -> int
    decreases entries.len(),
{
    if entries.len() == 0 || entries[0].0 == key {
        0
    } else {
        1 + entry_position(entries.skip(1), key)
    }
}

/// What `key` stands for among `entries`.
pub open spec fn lookup<T>(entries: Seq<(Seq<char>, T)>, key: Seq<char>) -> Option<T> {
    let at = entry_position(entries, key);
    if at < entries.len() {
        Some(entries[at].1)
    } else {
        None
    }
}

/// `entries` with `key` standing for `value`: in its old place, or last.
pub open spec fn with_entry<T>(entries: Seq<(Seq<char>, T)>, key: Seq<char>, value: T) -> Seq<
    (Seq<char>, T),
> {
    let at = entry_position(entries, key);
    if at < entries.len() {
        entries.update(at, (key, value))
    } else {
        entries.push((key, value))
    }
}

/// Whether each key of `entries` is there once.
pub open spec fn distinct_keys<T>(entries: Seq<(Seq<char>, T)>) -> bool {
    forall|i: int, j: int|
        0 <= i < j < entries.len() ==> (#[trigger] entries[i]).0 != (#[trigger] entries[j]).0
}

pub proof fn lemma_entry_position<T>(entries: Seq<(Seq<char>, T)>, key: Seq<char>)
    ensures
        0 <= entry_position(entries, key) <= entries.len(),
        entry_position(entries, key) < entries.len() ==> entries[entry_position(entries, key)].0
            == key,
        forall|j: int| 0 <= j < entry_position(entries, key) ==> (#[trigger] entries[j]).0 != key,
    decreases entries.len(),
{
    if entries.len() > 0 && entries[0].0 != key {
        let rest = entries.skip(1);
        lemma_entry_position(rest, key);
        assert forall|j: int| 0 <= j < entry_position(entries, key) implies (
        #[trigger] entries[j]).0 != key by {
            if j > 0 {
                assert(rest[j - 1] == entries[j]);
            }
        }
    }
}

/// Where a key stands is known once it is found.
pub proof fn lemma_position_is<T>(entries: Seq<(Seq<char>, T)>, key: Seq<char>, at: int)
    requires
        0 <= at <= entries.len(),
        at < entries.len() ==> entries[at].0 == key,
        forall|j: int| 0 <= j < at ==> (#[trigger] entries[j]).0 != key,
    ensures
        entry_position(entries, key) == at,
{
    lemma_entry_position(entries, key);
    let found = entry_position(entries, key);
    if found < at {
        assert(entries[found].0 != key);
    }
}

/// Adding or replacing an entry keeps the keys distinct.
pub proof fn lemma_with_entry_distinct<T>(
    entries: Seq<(Seq<char>, T)>,
    key: Seq<char>,
    value: T,
)
    requires
        distinct_keys(entries),
    ensures
        distinct_keys(with_entry(entries, key, value)),
{
    lemma_entry_position(entries, key);
}

/// Whether `m` can be a document: names distinct at every level, ids of
/// 16 bytes.
pub open spec fn valid(m: DocModel) -> bool
    decreases m,
{
    match m {
        DocModel::Array(items) => forall|i: int|
            0 <= i < items.len() ==> valid(#[trigger] items[i]),
        DocModel::Object(entries) => distinct_keys(entries) && (forall|i: int|
            0 <= i < entries.len() ==> valid(#[trigger] entries[i].1)),
        DocModel::Id(bytes) => bytes.len() == 16,
        _ => true,
    }
}

impl Fields {
    /// `IndexMap::new`: a map without entries.
    #[verifier::external_body]
    pub fn new() -> (r: Fields)
        ensures
            field_entries(r) == Seq::<(Seq<char>, DocModel)>::empty(),
    {
        Fields { map: IndexMap::new() }
    }

    /// `IndexMap::len`: how many entries there are.
    #[verifier::external_body]
    pub fn len(&self) -> (n: usize)
        ensures
            n == field_entries(*self).len(),
    {
        self.map.len()
    }

    /// `IndexMap::get_index`: the entry at a position that there is.
    #[verifier::external_body]
    pub fn entry_at(&self, i: usize) -> (e: (&String, &Document))
        requires
            i < field_entries(*self).len(),
        ensures
            (e.0@, e.1@) == field_entries(*self)[i as int],
    {
        self.map.get_index(i).unwrap()
    }

    /// `IndexMap::get`: what a key stands for.
    #[verifier::external_body]
    pub fn get(&self, key: &str) -> (r: Option<&Document>)
        ensures
            match r {
                Some(v) => lookup(field_entries(*self), key@) == Some(v@),
                None => lookup(field_entries(*self), key@) is None,
            },
    {
        self.map.get(key)
    }

    /// `IndexMap::insert`: a key that is there keeps its place and gets the
    /// new value; one that is not goes last.
    #[verifier::external_body]
    pub fn insert(&mut self, key: String, value: Document)
        ensures
            field_entries(*final(self)) == with_entry(field_entries(*old(self)), key@, value@),
    {
        self.map.insert(key, value);
    }
}

impl Clone for Fields {
    /// `IndexMap::clone`: a map with the same entries in the same order.
    #[verifier::external_body]
    fn clone(&self) -> (r: Fields)
        ensures
            field_entries(r) == field_entries(*self),
    {
        Fields { map: self.map.clone() }
    }
}

impl Clone for Document {
    fn clone(&self) -> (r: Document)
        ensures
            r@ == self@,
        decreases self@,
    {
        match self {
            Document::Null => Document::Null,
            Document::Bool(b) => Document::Bool(*b),
            Document::Int(n) => Document::Int(*n),
            Document::Float(f) => Document::Float(*f),
            Document::String(s) => Document::String(s.clone()),
            Document::Binary(b) => Document::Binary(slice_to_vec(b.as_slice())),
            Document::Array(items) => {
                let n: usize = items.len();
                let mut copy: Vec<Document> = Vec::new();
                proof {
                    lemma_array_view(*items);
                }
                for i in 0..n
                    invariant
                        n == items@.len(),
                        self@ == DocModel::Array(models(items@)),
                        copy@.len() == i,
                        forall|j: int| 0 <= j < i ==> (#[trigger] copy@[j])@ == items@[j]@,
                {
                    assert(decreases_to!(self@ => self@->Array_0[i as int]));
                    let item = items[i].clone();
                    copy.push(item);
                }
                proof {
                    lemma_array_view(copy);
                    assert(models(copy@) =~= models(items@));
                }
                Document::Array(copy)
            },
            Document::Object(fields) => Document::Object(fields.clone()),
            Document::Id(id) => Document::Id(*id),
        }
    }
}

// ---------------------------------------------------------------------
// Equality.

/// Whether two documents are equal: floats as numbers, objects whatever the
/// order of their fields.
pub open spec fn doc_equal(a: DocModel, b: DocModel) -> bool
    decreases a,
{
    match (a, b) {
        (DocModel::Null, DocModel::Null) => true,
        (DocModel::Bool(x), DocModel::Bool(y)) => x == y,
        (DocModel::Int(x), DocModel::Int(y)) => x == y,
        (DocModel::Float(x), DocModel::Float(y)) => float_equal(x, y),
        (DocModel::String(x), DocModel::String(y)) => x == y,
        (DocModel::Binary(x), DocModel::Binary(y)) => x == y,
        (DocModel::Array(x), DocModel::Array(y)) => x.len() == y.len() && (forall|i: int|
            0 <= i < x.len() ==> doc_equal(#[trigger] x[i], y[i])),
        (DocModel::Object(x), DocModel::Object(y)) => x.len() == y.len() && (forall|i: int|
            0 <= i < x.len() ==> lookup(y, (#[trigger] x[i]).0) is Some && doc_equal(
                x[i].1,
                lookup(y, x[i].0)->Some_0,
            )),
        (DocModel::Id(x), DocModel::Id(y)) => x == y,
        _ => false,
    }
}

fn floats_equal(a: u64, b: u64) -> (r: bool)
    ensures
        r == float_equal(a, b),
{
    !float_is_nan(a) && !float_is_nan(b) && float_rank(a) == float_rank(b)
}

/// Whether two documents are equal.
pub fn documents_equal(a: &Document, b: &Document) -> (r: bool)
    ensures
        r == doc_equal(a@, b@),
    decreases a@,
{
    match (a, b) {
        (Document::Null, Document::Null) => true,
        (Document::Bool(x), Document::Bool(y)) => *x == *y,
        (Document::Int(x), Document::Int(y)) => *x == *y,
        (Document::Float(x), Document::Float(y)) => floats_equal(*x, *y),
        (Document::String(x), Document::String(y)) => *x == *y,
        (Document::Binary(x), Document::Binary(y)) => bytes_equal(x.as_slice(), y.as_slice()),
        (Document::Array(x), Document::Array(y)) => {
            proof {
                lemma_array_view(*x);
                lemma_array_view(*y);
            }
            let n: usize = x.len();
            if n != y.len() {
                return false;
            }
            for i in 0..n
                invariant
                    n == x@.len() == y@.len(),
                    a@ == DocModel::Array(models(x@)),
                    b@ == DocModel::Array(models(y@)),
                    forall|j: int| 0 <= j < i ==> doc_equal(#[trigger] models(x@)[j], models(y@)[j]),
            {
                assert(decreases_to!(a@ => a@->Array_0[i as int]));
                if !documents_equal(&x[i], &y[i]) {
                    assert(!doc_equal(models(x@)[i as int], models(y@)[i as int]));
                    return false;
                }
            }
            true
        },
        (Document::Object(x), Document::Object(y)) => {
            let n: usize = x.len();
            if n != y.len() {
                return false;
            }
            for i in 0..n
                invariant
                    n == x@.len() == y@.len(),
                    a@ == DocModel::Object(x@),
                    b@ == DocModel::Object(y@),
                    forall|j: int|
                        0 <= j < i ==> lookup(y@, (#[trigger] x@[j]).0) is Some && doc_equal(
                            x@[j].1,
                            lookup(y@, x@[j].0)->Some_0,
                        ),
            {
                let (key, value) = x.entry_at(i);
                assert(decreases_to!(a@ => a@->Object_0[i as int].1));
                match y.get(key.as_str()) {
                    Some(other) => {
                        if !documents_equal(value, other) {
                            assert(!doc_equal(
                                x@[i as int].1,
                                lookup(y@, x@[i as int].0)->Some_0,
                            ));
                            return false;
                        }
                    },
                    None => {
                        assert(lookup(y@, x@[i as int].0) is None);
                        return false;
                    },
                }
            }
            true
        },
        (Document::Id(x), Document::Id(y)) => x.same(y),
        _ => false,
    }
}

impl PartialEq for Document {
    fn eq(&self, other: &Document) -> (r: bool) {
        documents_equal(self, other)
    }
}

impl vstd::std_specs::cmp::PartialEqSpecImpl for Document {
    open spec fn obeys_eq_spec() -> bool {
        true
    }

    open spec fn eq_spec(&self, other: &Document) -> bool {
        doc_equal(self@, other@)
    }
}

// ---------------------------------------------------------------------
// Nesting.

/// Whether `entries`, besides `_id`, are one field whose name is a tag.
pub open spec fn tag_like<T>(entries: Seq<(Seq<char>, T)>) -> bool {
    exists|i: int|
        0 <= i < entries.len() && is_tag_name(#[trigger] entries[i].0) && entries[i].0 != "_id"@
            && (forall|j: int|
            0 <= j < entries.len() && j != i ==> #[trigger] entries[j].0 == "_id"@)
}

/// Whether `m` nests at most `levels` deep, where an object that an export
/// writes inside a tag counts twice.
pub open spec fn within(m: DocModel, levels: int) -> bool
    decreases m,
{
    match m {
        DocModel::Array(items) => levels >= 1 && (forall|i: int|
            0 <= i < items.len() ==> within(#[trigger] items[i], levels - 1)),
        DocModel::Object(entries) => {
            let cost = if tag_like(entries) {
                2int
            } else {
                1
            };
            levels >= cost && (forall|i: int|
                0 <= i < entries.len() ==> within(#[trigger] entries[i].1, levels - cost))
        },
        _ => true,
    }
}

/// Whether `m` nests at most `levels` deep.
pub open spec fn depth_within(m: DocModel, levels: int) -> bool
    decreases m,
{
    match m {
        DocModel::Array(items) => levels >= 1 && (forall|i: int|
            0 <= i < items.len() ==> depth_within(#[trigger] items[i], levels - 1)),
        DocModel::Object(entries) => levels >= 1 && (forall|i: int|
            0 <= i < entries.len() ==> depth_within(#[trigger] entries[i].1, levels - 1)),
        _ => true,
    }
}

/// The names that an export gives a meaning of its own.
pub open spec fn is_tag_name(key: Seq<char>) -> bool {
    key == "$id"@ || key == "$binary"@ || key == "$float"@ || key == "$object"@ || key == "$value"@
}

/// What is not refused for its nesting can be decoded.
pub proof fn within_is_within_depth(m: DocModel, levels: int, more: int)
    requires
        within(m, levels),
        levels <= more,
    ensures
        depth_within(m, more),
    decreases m,
{
    match m {
        DocModel::Array(items) => {
            assert forall|i: int| 0 <= i < items.len() implies depth_within(
                #[trigger] items[i],
                more - 1,
            ) by {
                assert(within(items[i], levels - 1));
                within_is_within_depth(items[i], levels - 1, more - 1);
            }
        },
        DocModel::Object(entries) => {
            let cost = if tag_like(entries) {
                2int
            } else {
                1
            };
            assert forall|i: int| 0 <= i < entries.len() implies depth_within(
                #[trigger] entries[i].1,
                more - 1,
            ) by {
                assert(within(entries[i].1, levels - cost));
                within_is_within_depth(entries[i].1, levels - cost, more - 1);
            }
        },
        _ => {},
    }
}

/// Whether `key` is one of the names an export gives a meaning of its own.
pub fn is_tag(key: &str) -> (r: bool)
    ensures
        r == is_tag_name(key@),
{
    str_equal(key, "$id") || str_equal(key, "$binary") || str_equal(key, "$float") || str_equal(
        key,
        "$object",
    ) || str_equal(key, "$value")
}

/// Whether `fields`, besides `_id`, are one field whose name is a tag.
pub fn fields_tag_like(fields: &Fields) -> (r: bool)
    ensures
        r == tag_like(fields@),
{
    let n: usize = fields.len();
    let mut others: usize = 0;
    let mut tag: bool = false;
    let ghost mut at: int = -1;
    for i in 0..n
        invariant
            n == fields@.len(),
            others <= i,
            others == 0 ==> !tag && forall|j: int|
                0 <= j < i ==> (#[trigger] fields@[j]).0 == "_id"@,
            others == 1 ==> 0 <= at < i && fields@[at].0 != "_id"@ && tag == is_tag_name(
                fields@[at].0,
            ) && (forall|j: int|
                0 <= j < i && j != at ==> (#[trigger] fields@[j]).0 == "_id"@),
            others >= 2 ==> exists|j: int, k: int|
                0 <= j < k < i && (#[trigger] fields@[j]).0 != "_id"@ && (#[trigger] fields@[k]).0
                    != "_id"@,
    {
        let (key, _value) = fields.entry_at(i);
        if !str_equal(key.as_str(), "_id") {
            proof {
                if others == 0 {
                    at = i as int;
                } else if others == 1 {
                    assert(0 <= at < i && fields@[at].0 != "_id"@ && fields@[i as int].0
                        != "_id"@);
                }
            }
            tag = is_tag(key.as_str());
            others = others + 1;
        }
    }
    proof {
        if others == 1 && tag {
            assert(fields@[at].0 != "_id"@);
        }
    }
    others == 1 && tag
}

fn nests_within(doc: &Document, levels: usize) -> (r: bool)
    ensures
        r == within(doc@, levels as int),
    decreases levels,
{
    match doc {
        Document::Array(items) => {
            proof {
                lemma_array_view(*items);
            }
            if levels < 1 {
                return false;
            }
            let n: usize = items.len();
            for i in 0..n
                invariant
                    n == items@.len(),
                    levels >= 1,
                    doc@ == DocModel::Array(models(items@)),
                    forall|j: int| 0 <= j < i ==> within(#[trigger] models(items@)[j], levels - 1),
            {
                if !nests_within(&items[i], levels - 1) {
                    assert(!within(doc@->Array_0[i as int], levels as int - 1));
                    return false;
                }
            }
            true
        },
        Document::Object(fields) => {
            let cost: usize = if fields_tag_like(fields) {
                2
            } else {
                1
            };
            if levels < cost {
                return false;
            }
            let n: usize = fields.len();
            for i in 0..n
                invariant
                    n == fields@.len(),
                    levels >= cost,
                    cost == (if tag_like(fields@) {
                        2int
                    } else {
                        1
                    }),
                    doc@ == DocModel::Object(fields@),
                    forall|j: int|
                        0 <= j < i ==> within((#[trigger] fields@[j]).1, levels - cost),
            {
                let (_key, value) = fields.entry_at(i);
                if !nests_within(value, levels - cost) {
                    assert(!within(fields@[i as int].1, levels - cost));
                    return false;
                }
            }
            true
        },
        _ => true,
    }
}

impl Document {
    /// Whether `self`, as the whole document, nests deeper than
    /// `MAX_NESTING`: what a write refuses. An object whose only key,
    /// besides `_id`, is an export tag counts twice, since an export
    /// writes it inside `{"$object": ...}`. Stops at the limit, so even a
    /// document too deep for the stack can't overflow it here.
    pub fn nests_too_deep(&self) -> (r: bool)
        ensures
            r == !within(self@, MAX_NESTING as int),
    {
        !nests_within(self, MAX_NESTING)
    }
}

} // verus!

//! Plain Rust values as documents, so a filter can say `.eq("age", 36)`
//! instead of `Document::Int(36)`. Only lossless ones: no `u64`/`usize`, which
//! can exceed `i64`, and no `Vec`, which could mean `Array` or `Binary`. A
//! float goes in as its bits, `Document::Float`.

use crate::collection::maintain::copy_text;
use crate::document::{DocId, DocModel, Document};
use vstd::prelude::*;
use vstd::std_specs::convert::FromSpecImpl;

verus! {

impl From<bool> for Document {
    fn from(value: bool) -> (r: Document) {
        Document::Bool(value)
    }
}

impl FromSpecImpl<bool> for Document {
    open spec fn obeys_from_spec() -> bool {
        true
    }

    open spec fn from_spec(value: bool) -> Document {
        Document::Bool(value)
    }
}

impl From<i8> for Document {
    fn from(value: i8) -> (r: Document) {
        Document::Int(value as i64)
    }
}

impl FromSpecImpl<i8> for Document {
    open spec fn obeys_from_spec() -> bool {
        true
    }

    open spec fn from_spec(value: i8) -> Document {
        Document::Int(value as i64)
    }
}

impl From<i16> for Document {
    fn from(value: i16) -> (r: Document) {
        Document::Int(value as i64)
    }
}

impl FromSpecImpl<i16> for Document {
    open spec fn obeys_from_spec() -> bool {
        true
    }

    open spec fn from_spec(value: i16) -> Document {
        Document::Int(value as i64)
    }
}

impl From<i32> for Document {
    fn from(value: i32) -> (r: Document) {
        Document::Int(value as i64)
    }
}

impl FromSpecImpl<i32> for Document {
    open spec fn obeys_from_spec() -> bool {
        true
    }

    open spec fn from_spec(value: i32) -> Document {
        Document::Int(value as i64)
    }
}

impl From<i64> for Document {
    fn from(value: i64) -> (r: Document) {
        Document::Int(value)
    }
}

impl FromSpecImpl<i64> for Document {
    open spec fn obeys_from_spec() -> bool {
        true
    }

    open spec fn from_spec(value: i64) -> Document {
        Document::Int(value)
    }
}

impl From<u8> for Document {
    fn from(value: u8) -> (r: Document) {
        Document::Int(value as i64)
    }
}

impl FromSpecImpl<u8> for Document {
    open spec fn obeys_from_spec() -> bool {
        true
    }

    open spec fn from_spec(value: u8) -> Document {
        Document::Int(value as i64)
    }
}

impl From<u16> for Document {
    fn from(value: u16) -> (r: Document) {
        Document::Int(value as i64)
    }
}

impl FromSpecImpl<u16> for Document {
    open spec fn obeys_from_spec() -> bool {
        true
    }

    open spec fn from_spec(value: u16) -> Document {
        Document::Int(value as i64)
    }
}

impl From<u32> for Document {
    fn from(value: u32) -> (r: Document) {
        Document::Int(value as i64)
    }
}

impl FromSpecImpl<u32> for Document {
    open spec fn obeys_from_spec() -> bool {
        true
    }

    open spec fn from_spec(value: u32) -> Document {
        Document::Int(value as i64)
    }
}

impl From<String> for Document {
    fn from(value: String) -> (r: Document) {
        Document::String(value)
    }
}

impl FromSpecImpl<String> for Document {
    open spec fn obeys_from_spec() -> bool {
        true
    }

    open spec fn from_spec(value: String) -> Document {
        Document::String(value)
    }
}

impl From<DocId> for Document {
    fn from(value: DocId) -> (r: Document) {
        Document::Id(value)
    }
}

impl FromSpecImpl<DocId> for Document {
    open spec fn obeys_from_spec() -> bool {
        true
    }

    open spec fn from_spec(value: DocId) -> Document {
        Document::Id(value)
    }
}

impl From<&str> for Document {
    fn from(value: &str) -> (r: Document)
        ensures
            r@ == DocModel::String(value@),
    {
        Document::String(copy_text(value))
    }
}

impl FromSpecImpl<&str> for Document {
    open spec fn obeys_from_spec() -> bool {
        false
    }

    open spec fn from_spec(value: &str) -> Document {
        Document::Null
    }
}

/// `None` is `Null`, so an `Option` field's value can go into a filter as it
/// is.
impl<T: Into<Document>> From<Option<T>> for Document {
    fn from(value: Option<T>) -> (r: Document)
        ensures
            value is None ==> r == Document::Null,
            value matches Some(inner) ==> call_ensures(T::into, (inner,), r),
    {
        match value {
            Some(inner) => inner.into(),
            None => Document::Null,
        }
    }
}

impl<T: Into<Document>> FromSpecImpl<Option<T>> for Document {
    open spec fn obeys_from_spec() -> bool {
        false
    }

    open spec fn from_spec(value: Option<T>) -> Document {
        Document::Null
    }
}

} // verus!

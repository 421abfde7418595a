//! The changes that a write is made of.

use crate::document::{DocId, Document};
use vstd::prelude::*;

verus! {

/// One change to a collection, named first.
#[derive(Debug)]
pub enum WriteOp {
    Insert(String, DocId, Document),
    Update(String, DocId, Document),
    Delete(String, DocId),
}

impl WriteOp {
    /// The collection that is changed.
    pub open spec fn name(&self) -> Seq<char> {
        match self {
            WriteOp::Insert(name, _, _) => name@,
            WriteOp::Update(name, _, _) => name@,
            WriteOp::Delete(name, _) => name@,
        }
    }
}

} // verus!

//! Several writes made as one.

use crate::collection::maintain::copy_text;
use crate::document::{DocId, Document};
use crate::id::IdGenerator;
use crate::txn::WriteOp;
use vstd::prelude::*;

verus! {

/// An atomic multi-op write: collect inserts, updates and deletes against any
/// collections, then commit them as one: all of them, or (on any error) none.
///
/// Errors that depend on the stored state (an insert whose id exists, an
/// update or delete of a missing id) surface at the commit, which then rolls
/// back the whole batch. Ops apply in the order they were added, so a later
/// op may update or delete a document an earlier one inserted. Dropping a
/// batch without committing discards it.
#[must_use]
#[derive(Debug)]
pub struct Batch {
    ops: Vec<WriteOp>,
}

/// Whether one more op was added.
pub open spec fn one_more(before: Seq<WriteOp>, after: Seq<WriteOp>) -> bool {
    after.len() == before.len() + 1 && after.drop_last() == before
}

impl Batch {
    /// The ops so far.
    pub closed spec fn view(&self) -> Seq<WriteOp> {
        self.ops@
    }

    pub fn new() -> (r: Batch)
        ensures
            r@ == Seq::<WriteOp>::empty(),
    {
        Batch { ops: Vec::new() }
    }

    /// Adds an insert and returns the new document's id right away: it's
    /// generated here, not at the commit, so later ops in the same batch can
    /// refer to it. It only names a stored document once the commit succeeds.
    pub fn insert<G: IdGenerator>(&mut self, collection: &str, ids: &G, doc: Document) -> (r: DocId)
        ensures
            one_more(old(self)@, final(self)@),
            final(self)@.last() matches WriteOp::Insert(name, id, stored) && name@ == collection@
                && id == r && stored == doc,
    {
        let id = ids.generate();
        let ghost before = self.ops@;
        self.ops.push(WriteOp::Insert(copy_text(collection), id, doc));
        assert(self.ops@.drop_last() =~= before);
        id
    }

    /// Adds an update. A missing id fails the whole batch at the commit.
    pub fn update(&mut self, collection: &str, id: &DocId, doc: Document)
        ensures
            one_more(old(self)@, final(self)@),
            final(self)@.last() matches WriteOp::Update(name, which, stored) && name@
                == collection@ && which == *id && stored == doc,
    {
        let ghost before = self.ops@;
        self.ops.push(WriteOp::Update(copy_text(collection), *id, doc));
        assert(self.ops@.drop_last() =~= before);
    }

    /// Adds a delete. A missing id fails the whole batch at the commit.
    pub fn delete(&mut self, collection: &str, id: &DocId)
        ensures
            one_more(old(self)@, final(self)@),
            final(self)@.last() matches WriteOp::Delete(name, which) && name@ == collection@
                && which == *id,
    {
        let ghost before = self.ops@;
        self.ops.push(WriteOp::Delete(copy_text(collection), *id));
        assert(self.ops@.drop_last() =~= before);
    }

    pub fn len(&self) -> (r: usize)
        ensures
            r == self@.len(),
    {
        self.ops.len()
    }

    pub fn is_empty(&self) -> (r: bool)
        ensures
            r == (self@.len() == 0),
    {
        self.ops.len() == 0
    }

    /// The ops, in the order they were added: what a commit applies.
    pub fn into_ops(self) -> (r: Vec<WriteOp>)
        ensures
            r@ == self@,
    {
        self.ops
    }
}

} // verus!

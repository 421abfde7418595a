use super::Durability;
use crate::error::IoResult;
use crate::storage::PageId;
use vstd::prelude::*;

verus! {

/// Does nothing. For callers that want the storage plumbing without any
/// log. A crash mid-write against `NoopDurability` can corrupt the file;
/// that's the explicit trade-off of choosing this over the real one.
#[derive(Default)]
pub struct NoopDurability;

impl Durability for NoopDurability {
    open spec fn can_log(&self, pages: Seq<(PageId, Seq<u8>)>) -> bool {
        true
    }

    open spec fn pending(&self) -> Option<Seq<(PageId, Seq<u8>)>> {
        Some(Seq::empty())
    }

    fn log(&mut self, pages: &[(PageId, &[u8])]) -> (r: IoResult<()>)
        ensures
            r is Ok,
            *final(self) == *old(self),
    {
        Ok(())
    }

    fn checkpoint(&mut self) -> (r: IoResult<()>)
        ensures
            r is Ok,
            *final(self) == *old(self),
    {
        Ok(())
    }
}

} // verus!

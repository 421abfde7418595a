//! Where pages are kept.

use super::{PageId, USABLE_PAGE_SIZE};
use crate::error::{ErrorKind, IoResult};
use vstd::prelude::*;

verus! {

/// A store of pages. Pages are allocated before they are used, and can be
/// freed for reuse.
pub trait PageStore: Sized {
    /// The pages that are allocated, and their bytes.
    spec fn pages(&self) -> Map<PageId, Seq<u8>>;

    /// Whether the store is in a state it can work from.
    spec fn wf(&self) -> bool;

    /// Whether the medium works: then every call on an allocated page
    /// succeeds.
    spec fn reliable(&self) -> bool;

    /// Whether the store ran out of pages: an allocation failed because there
    /// was none left.
    spec fn full(&self) -> bool;

    /// Whether no page was ever allocated: then page 1 is the first.
    spec fn fresh(&self) -> bool;

    /// Whether no page waits to be used again.
    spec fn packed(&self) -> bool;

    /// Every allocated page is whole, and none is page 0.
    proof fn lemma_pages(&self)
        requires
            self.wf(),
        ensures
            forall|id: PageId| #[trigger]
                self.pages().dom().contains(id) ==> id != 0 && self.pages()[id].len()
                    == USABLE_PAGE_SIZE,
            self.fresh() ==> self.pages().dom() =~= Set::empty(),
    ;

    /// Allocates a page.
    fn allocate_page(&mut self) -> (r: IoResult<PageId>)
        requires
            old(self).wf(),
        ensures
            final(self).wf(),
            final(self).reliable() == old(self).reliable(),
            old(self).packed() ==> final(self).packed(),
            match r {
                Ok(id) => !old(self).pages().dom().contains(id) && (old(self).fresh() ==> id == 1)
                    && final(self).pages().dom()
                    == old(self).pages().dom().insert(id) && forall|other: PageId| #[trigger]
                    old(self).pages().dom().contains(other) ==> final(self).pages()[other]
                        == old(self).pages()[other],
                Err(_) => final(self).pages() == old(self).pages() && (!old(self).reliable()
                    || final(self).full()),
            },
    ;

    /// A page's bytes.
    fn read_page(&self, id: PageId) -> (r: IoResult<Vec<u8>>)
        requires
            self.wf(),
        ensures
            match r {
                Ok(bytes) => self.pages().dom().contains(id) && bytes@ == self.pages()[id],
                Err(e) => !self.reliable() || (!self.pages().dom().contains(id) && e.kind
                    == ErrorKind::InvalidData),
            },
    ;

    /// A page's bytes, `None` if there is no such page.
    fn try_read_page(&self, id: PageId) -> (r: IoResult<Option<Vec<u8>>>)
        requires
            self.wf(),
        ensures
            match r {
                Ok(Some(bytes)) => self.pages().dom().contains(id) && bytes@ == self.pages()[id],
                Ok(None) => !self.pages().dom().contains(id),
                Err(_) => !self.reliable(),
            },
    ;

    /// Replaces a page's bytes.
    fn write_page(&mut self, id: PageId, data: &[u8]) -> (r: IoResult<()>)
        requires
            old(self).wf(),
            data@.len() == USABLE_PAGE_SIZE,
        ensures
            final(self).wf(),
            final(self).reliable() == old(self).reliable(),
            final(self).full() == old(self).full(),
            old(self).packed() ==> final(self).packed(),
            match r {
                Ok(()) => old(self).pages().dom().contains(id) && final(self).pages() == old(
                    self,
                ).pages().insert(id, data@),
                Err(e) => !old(self).reliable() || (!old(self).pages().dom().contains(id) && e.kind
                    == ErrorKind::InvalidData && final(self).pages() == old(self).pages()),
            },
    ;

    /// Gives a page back.
    fn free_page(&mut self, id: PageId) -> (r: IoResult<()>)
        requires
            old(self).wf(),
        ensures
            final(self).wf(),
            final(self).reliable() == old(self).reliable(),
            match r {
                Ok(()) => old(self).pages().dom().contains(id) && final(self).pages() == old(
                    self,
                ).pages().remove(id),
                Err(e) => !old(self).reliable() || (!old(self).pages().dom().contains(id) && e.kind
                    == ErrorKind::InvalidData && final(self).pages() == old(self).pages()),
            },
    ;
}

} // verus!

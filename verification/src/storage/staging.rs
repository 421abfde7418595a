//! Stores that can go back to where they were.

use super::memory::MemoryStore;
use super::page::zeros;
use super::store::PageStore;
use super::{PageId, PageImage, USABLE_PAGE_SIZE};
use crate::durability::images;
use vstd::prelude::*;

verus! {

/// Whether a page is another, or there in only one of two states.
pub open spec fn differs(
    before: Map<PageId, Seq<u8>>,
    after: Map<PageId, Seq<u8>>,
    id: PageId,
) -> bool {
    before.dom().contains(id) != after.dom().contains(id) || (after.dom().contains(id)
        && before[id] != after[id])
}

/// What is written of a page: its bytes, or zeros for one that was given back.
pub open spec fn written_as(after: Map<PageId, Seq<u8>>, id: PageId) -> Seq<u8> {
    if after.dom().contains(id) {
        after[id]
    } else {
        zeros(USABLE_PAGE_SIZE as int)
    }
}

/// Whether a page is among images.
pub open spec fn pictured(list: Seq<(PageId, Seq<u8>)>, id: PageId) -> bool {
    exists|i: int| 0 <= i < list.len() && (#[trigger] list[i]).0 == id
}

/// Whether images are of exactly the pages that changed, each once, as they
/// are to be written.
pub open spec fn are_changes(
    before: Map<PageId, Seq<u8>>,
    after: Map<PageId, Seq<u8>>,
    list: Seq<(PageId, Seq<u8>)>,
) -> bool {
    &&& forall|i: int|
        0 <= i < list.len() ==> differs(before, after, (#[trigger] list[i]).0) && list[i].1
            == written_as(after, list[i].0) && list[i].1.len() == USABLE_PAGE_SIZE
    &&& forall|i: int, j: int|
        0 <= i < j < list.len() ==> (#[trigger] list[i]).0 < (#[trigger] list[j]).0
    &&& forall|id: PageId| #[trigger] differs(before, after, id) ==> pictured(list, id)
}

/// Pages with images restored over them, one after the other.
pub open spec fn restored(
    pages: Map<PageId, Seq<u8>>,
    list: Seq<(PageId, Seq<u8>)>,
) -> Map<PageId, Seq<u8>>
    decreases list.len(),
{
    if list.len() == 0 {
        pages
    } else {
        restored(pages, list.drop_last()).insert(list.last().0, list.last().1)
    }
}

proof fn lemma_restored(pages: Map<PageId, Seq<u8>>, list: Seq<(PageId, Seq<u8>)>, id: PageId)
    requires
        forall|i: int, j: int|
            0 <= i < j < list.len() ==> (#[trigger] list[i]).0 < (#[trigger] list[j]).0,
    ensures
        pictured(list, id) ==> restored(pages, list).dom().contains(id) && exists|i: int|
            0 <= i < list.len() && (#[trigger] list[i]).0 == id && restored(pages, list)[id]
                == list[i].1,
        !pictured(list, id) ==> restored(pages, list).dom().contains(id) == pages.dom().contains(
            id,
        ) && restored(pages, list)[id] == pages[id],
    decreases list.len(),
{
    if list.len() > 0 {
        let front = list.drop_last();
        assert forall|i: int, j: int| 0 <= i < j < front.len() implies (#[trigger] front[i]).0 < (
        #[trigger] front[j]).0 by {
            assert(list[i] == front[i] && list[j] == front[j]);
        }
        lemma_restored(pages, front, id);
        if list.last().0 == id {
            assert(list[list.len() - 1].0 == id);
        } else {
            if pictured(list, id) {
                let i = choose|i: int| 0 <= i < list.len() && (#[trigger] list[i]).0 == id;
                assert(front[i].0 == id);
                let k = choose|k: int|
                    0 <= k < front.len() && (#[trigger] front[k]).0 == id && restored(
                        pages,
                        front,
                    )[id] == front[k].1;
                assert(list[k] == front[k]);
            }
            if pictured(front, id) {
                let i = choose|i: int| 0 <= i < front.len() && (#[trigger] front[i]).0 == id;
                assert(list[i].0 == id);
            }
        }
    }
}

/// Restoring the images of what changed over the pages as they were gives the
/// pages as they are: every page that is there has its bytes, and one that was
/// given back is zeros.
pub proof fn restoring_changes_gives_the_pages(
    before: Map<PageId, Seq<u8>>,
    after: Map<PageId, Seq<u8>>,
    list: Seq<(PageId, Seq<u8>)>,
)
    requires
        are_changes(before, after, list),
    ensures
        restored(before, list).dom() =~= before.dom().union(after.dom()),
        forall|id: PageId| #[trigger]
            restored(before, list).dom().contains(id) ==> restored(before, list)[id]
                == written_as(after, id),
{
    assert forall|id: PageId|
        restored(before, list).dom().contains(id) == (before.dom().contains(id)
            || after.dom().contains(id)) && (#[trigger] restored(before, list).dom().contains(id)
            ==> restored(before, list)[id] == written_as(after, id)) by {
        lemma_restored(before, list, id);
        if pictured(list, id) {
            let i = choose|i: int|
                0 <= i < list.len() && (#[trigger] list[i]).0 == id && restored(before, list)[id]
                    == list[i].1;
            assert(differs(before, after, list[i].0));
        } else {
            assert(!differs(before, after, id));
        }
    }
}

/// A store that stages changes: from `begin` on they can be taken back with
/// `rollback`, until `commit`.
pub trait Staging: PageStore {
    /// What it takes to go back.
    type Snapshot;

    /// Whether it can be gone back to.
    spec fn whole(snapshot: &Self::Snapshot) -> bool;

    /// The pages as they were at `begin`.
    spec fn kept(snapshot: &Self::Snapshot) -> Map<PageId, Seq<u8>>;

    fn begin(&mut self) -> (s: Self::Snapshot)
        requires
            old(self).wf(),
        ensures
            final(self).wf(),
            final(self).reliable() == old(self).reliable(),
            final(self).pages() == old(self).pages(),
            !final(self).full(),
            Self::whole(&s),
            Self::kept(&s) == old(self).pages(),
    ;

    fn rollback(&mut self, snapshot: Self::Snapshot)
        requires
            old(self).wf(),
            Self::whole(&snapshot),
        ensures
            final(self).wf(),
            final(self).reliable() == old(self).reliable(),
            final(self).full() == old(self).full(),
            final(self).pages() == Self::kept(&snapshot),
    ;

    fn commit(&mut self, snapshot: Self::Snapshot)
        requires
            old(self).wf(),
        ensures
            final(self).wf(),
            final(self).reliable() == old(self).reliable(),
            final(self).pages() == old(self).pages(),
    ;

    /// The pages that changed since `begin`, as they are to be written: one
    /// that was given back counts too.
    fn dirty_pages(&self, snapshot: &Self::Snapshot) -> (r: Vec<PageImage>)
        requires
            self.wf(),
            Self::whole(snapshot),
        ensures
            are_changes(Self::kept(snapshot), self.pages(), images(r@)),
            r@.len() == 0 ==> self.pages() == Self::kept(snapshot),
    ;

    /// How many committed pages wait to be written to the main file.
    spec fn unwritten(&self) -> usize;

    /// How many committed pages wait to be written to the main file.
    fn unwritten_pages(&self) -> (n: usize)
        ensures
            n == self.unwritten(),
    ;
}

/// What went into a snapshot of a store in memory.
pub struct MemorySnapshot {
    pub store: MemoryStore,
}

impl Staging for MemoryStore {
    type Snapshot = MemorySnapshot;

    open spec fn kept(snapshot: &MemorySnapshot) -> Map<PageId, Seq<u8>> {
        snapshot.store.pages()
    }

    open spec fn whole(snapshot: &MemorySnapshot) -> bool {
        snapshot.store.wf()
    }

    fn begin(&mut self) -> (s: MemorySnapshot) {
        self.start_over();
        MemorySnapshot { store: self.copy() }
    }

    fn rollback(&mut self, snapshot: MemorySnapshot) {
        self.go_back(snapshot.store);
    }

    fn commit(&mut self, snapshot: MemorySnapshot) {
    }

    fn dirty_pages(&self, snapshot: &MemorySnapshot) -> (r: Vec<PageImage>) {
        self.changed_since(&snapshot.store)
    }

    open spec fn unwritten(&self) -> usize {
        0
    }

    fn unwritten_pages(&self) -> (n: usize) {
        0
    }
}

} // verus!

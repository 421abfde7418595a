//! A store that keeps its pages in memory only.

use super::page::zeros;
use super::staging::{are_changes, differs, pictured, written_as};
use super::store::PageStore;
use super::{PageId, USABLE_PAGE_SIZE};
use crate::durability::images;
use crate::error::{ErrorKind, IoError, IoResult};
use crate::text::{decimal_text, join};
use vstd::prelude::*;
use vstd::slice::slice_to_vec;
use vstd::string::StringExecFns;

verus! {

/// Pages in memory, numbered from 1, as a file's are after its header. A
/// freed page is the next one to be allocated.
pub struct MemoryStore {
    /// Page `i + 1` is `slots[i]`: `None` while it is free.
    slots: Vec<Option<Vec<u8>>>,
    free: Vec<PageId>,
    /// Whether an allocation failed since the last start.
    ran_out: Ghost<bool>,
}

/// Whether the free pages are the empty slots, each listed once.
spec fn free_ok(slots: Seq<Option<Vec<u8>>>, free: Seq<PageId>) -> bool {
    &&& forall|i: int|
        0 <= i < free.len() ==> 1 <= #[trigger] free[i] <= slots.len() && slots[free[i] - 1] is None
    &&& forall|i: int, j: int| 0 <= i < j < free.len() ==> #[trigger] free[i] != #[trigger] free[j]
}

spec fn whole_pages(slots: Seq<Option<Vec<u8>>>) -> bool {
    forall|i: int|
        0 <= i < slots.len() ==> ((#[trigger] slots[i]) matches Some(page) ==> page@.len()
            == USABLE_PAGE_SIZE)
}

spec fn slot_pages(slots: Seq<Option<Vec<u8>>>) -> Map<PageId, Seq<u8>> {
    Map::new(
        |id: PageId| 1 <= id <= slots.len() && slots[id - 1] is Some,
        |id: PageId| slots[id - 1]->Some_0@,
    )
}

/// `are_changes` for the pages up to `n`.
spec fn changes_up_to(
    before: Map<PageId, Seq<u8>>,
    after: Map<PageId, Seq<u8>>,
    list: Seq<(PageId, Seq<u8>)>,
    n: int,
) -> bool {
    &&& forall|i: int|
        0 <= i < list.len() ==> (#[trigger] list[i]).0 <= n && differs(before, after, list[i].0)
            && list[i].1 == written_as(after, list[i].0) && list[i].1.len() == USABLE_PAGE_SIZE
    &&& forall|i: int, j: int|
        0 <= i < j < list.len() ==> (#[trigger] list[i]).0 < (#[trigger] list[j]).0
    &&& forall|id: PageId|
        1 <= id <= n && #[trigger] differs(before, after, id) ==> pictured(list, id)
}

proof fn lemma_one_changed(
    before: Map<PageId, Seq<u8>>,
    after: Map<PageId, Seq<u8>>,
    list: Seq<(PageId, Seq<u8>)>,
    n: int,
    page: Seq<u8>,
)
    requires
        changes_up_to(before, after, list, n),
        0 <= n < u64::MAX,
        differs(before, after, (n + 1) as u64),
        page == written_as(after, (n + 1) as u64),
        page.len() == USABLE_PAGE_SIZE,
    ensures
        changes_up_to(before, after, list.push(((n + 1) as u64, page)), n + 1),
{
    let more = list.push(((n + 1) as u64, page));
    assert(more[list.len() as int].0 == (n + 1) as u64);
    assert forall|id: PageId| 1 <= id <= n + 1 && #[trigger] differs(
        before,
        after,
        id,
    ) implies pictured(more, id) by {
        if id <= n {
            assert(pictured(list, id));
            let k = choose|k: int| 0 <= k < list.len() && (#[trigger] list[k]).0 == id;
            assert(more[k].0 == id);
        }
    }
}

proof fn lemma_none_changed(
    before: Map<PageId, Seq<u8>>,
    after: Map<PageId, Seq<u8>>,
    list: Seq<(PageId, Seq<u8>)>,
    n: int,
)
    requires
        changes_up_to(before, after, list, n),
        0 <= n < u64::MAX,
        !differs(before, after, (n + 1) as u64),
    ensures
        changes_up_to(before, after, list, n + 1),
{
}

/// What is in a slot, if it is there.
fn page_slot(slots: &Vec<Option<Vec<u8>>>, i: usize) -> (r: Option<&Vec<u8>>)
    ensures
        r == (if i < slots@.len() {
            match slots@[i as int] {
                Some(page) => Some(&page),
                None => None,
            }
        } else {
            None
        }),
{
    if i < slots.len() {
        match &slots[i] {
            Some(page) => Some(page),
            None => None,
        }
    } else {
        None
    }
}

/// What is to be written of a page that was another.
fn page_change(now: Option<&Vec<u8>>, was: Option<&Vec<u8>>) -> (r: Option<Vec<u8>>)
    ensures
        match (now, was) {
            (Some(a), Some(b)) => if a@ == b@ {
                r is None
            } else {
                r matches Some(page) && page@ == a@
            },
            (Some(a), None) => r matches Some(page) && page@ == a@,
            (None, Some(_)) => r matches Some(page) && page@ == zeros(USABLE_PAGE_SIZE as int),
            (None, None) => r is None,
        },
{
    match now {
        Some(a) => {
            match was {
                Some(b) => {
                    if crate::bytes::bytes_equal(a.as_slice(), b.as_slice()) {
                        return None;
                    }
                },
                None => {},
            }
            Some(slice_to_vec(a.as_slice()))
        },
        None => {
            if was.is_none() {
                return None;
            }
            let page: Vec<u8> = vec![0u8; USABLE_PAGE_SIZE];
            assert(page@ =~= zeros(USABLE_PAGE_SIZE as int));
            Some(page)
        },
    }
}

/// An error about a page that is not there.
pub fn no_such_page(id: PageId) -> (e: IoError)
    ensures
        e.kind == ErrorKind::InvalidData,
{
    let number = decimal_text(id);
    let message = join(&["there is no page ", number.as_str(), " — file may be corrupt"]);
    IoError::new(ErrorKind::InvalidData, message)
}

impl MemoryStore {
    /// A store without pages.
    pub fn new() -> (s: MemoryStore)
        ensures
            s.wf(),
            s.pages() == Map::<PageId, Seq<u8>>::empty(),
            s.reliable(),
            s.fresh(),
            s.packed(),
            s.count() == 1,
    {
        let s = MemoryStore { slots: Vec::new(), free: Vec::new(), ran_out: Ghost(false) };
        assert(s.pages() =~= Map::empty());
        s
    }

    /// How many pages there are, counting page 0 and the free ones.
    pub closed spec fn count(&self) -> nat {
        self.slots@.len() + 1
    }

    /// How many pages a file holding these would have, its header
    /// included.
    pub fn page_count(&self) -> (n: u64)
        requires
            self.wf(),
        ensures
            n == self.count(),
    {
        self.slots.len() as u64 + 1
    }

    /// How many pages were given back and wait to be used again.
    pub closed spec fn spare(&self) -> nat {
        self.free@.len()
    }

    /// Whether there is no page to allocate: none is spare, and there are as
    /// many as can be numbered.
    pub closed spec fn at_limit(&self) -> bool {
        self.free@.len() == 0 && self.slots@.len() + 1 == usize::MAX
    }

    /// In a store without pages none waits to be used again.
    pub proof fn lemma_fresh(&self)
        requires
            self.wf(),
            self.fresh(),
        ensures
            self.packed(),
    {
        if self.free@.len() > 0 {
            assert(1 <= self.free@[0] <= self.slots@.len());
        }
    }

    /// Where no page waits to be used again, every page but page 0 is in use.
    pub proof fn lemma_packed(&self)
        requires
            self.wf(),
            self.packed(),
        ensures
            self.spare() == 0,
            forall|id: PageId| #[trigger]
                self.pages().dom().contains(id) <==> 0 < id < self.count(),
    {
        assert forall|id: PageId| #[trigger]
            self.pages().dom().contains(id) <==> 0 < id < self.count() by {
            if 0 < id < self.count() {
                assert(self.slots@[id - 1] is Some);
            }
        }
    }

    /// Forgets that it ran out of pages.
    pub fn start_over(&mut self)
        requires
            old(self).wf(),
        ensures
            final(self).wf(),
            final(self).pages() == old(self).pages(),
            final(self).count() == old(self).count(),
            !final(self).full(),
    {
        self.ran_out = Ghost(false);
    }

    /// Goes back to other pages.
    pub fn go_back(&mut self, before: MemoryStore)
        requires
            before.wf(),
        ensures
            final(self).wf(),
            final(self).pages() == before.pages(),
            final(self).count() == before.count(),
            final(self).full() == old(self).full(),
    {
        self.slots = before.slots;
        self.free = before.free;
    }

    /// The same pages in a store of their own.
    pub fn copy(&self) -> (r: MemoryStore)
        requires
            self.wf(),
        ensures
            r.wf(),
            r.pages() == self.pages(),
            r.count() == self.count(),
    {
        let n: usize = self.slots.len();
        let mut slots: Vec<Option<Vec<u8>>> = Vec::new();
        for i in 0..n
            invariant
                n == self.slots@.len(),
                slots@.len() == i,
                forall|j: int|
                    0 <= j < i ==> ((#[trigger] slots@[j]) is Some <==> self.slots@[j] is Some),
                forall|j: int|
                    0 <= j < i ==> ((#[trigger] slots@[j]) matches Some(page) ==> page@
                        == self.slots@[j]->Some_0@),
        {
            let slot: Option<Vec<u8>> = match &self.slots[i] {
                Some(page) => Some(slice_to_vec(page.as_slice())),
                None => None,
            };
            slots.push(slot);
        }
        let free: Vec<PageId> = slice_to_vec(self.free.as_slice());
        let r = MemoryStore { slots, free, ran_out: Ghost(false) };
        proof {
            assert forall|i: int| 0 <= i < r.slots@.len() implies ((
            #[trigger] r.slots@[i]) matches Some(page) ==> page@.len() == USABLE_PAGE_SIZE) by {
                assert(self.slots@[i] is Some <==> r.slots@[i] is Some);
            }
            assert forall|i: int| 0 <= i < r.free@.len() implies 1 <= #[trigger] r.free@[i]
                <= r.slots@.len() && r.slots@[r.free@[i] - 1] is None by {
                assert(self.free@[i] == r.free@[i]);
            }
            assert(r.pages() =~= self.pages());
        }
        r
    }

    /// The pages that differ from another store's, as they are to be written:
    /// one that isn't there any more as zeros.
    pub fn changed_since(&self, before: &MemoryStore) -> (r: Vec<(PageId, Vec<u8>)>)
        requires
            self.wf(),
            before.wf(),
        ensures
            are_changes(before.pages(), self.pages(), images(r@)),
            r@.len() == 0 ==> self.pages() == before.pages(),
    {
        let n: usize = self.slots.len();
        let m: usize = before.slots.len();
        let most: usize = if n < m {
            m
        } else {
            n
        };
        let ghost were = before.pages();
        let ghost are = self.pages();
        let mut changed: Vec<(PageId, Vec<u8>)> = Vec::new();
        for i in 0..most
            invariant
                n == self.slots@.len(),
                m == before.slots@.len(),
                n <= most,
                m <= most < usize::MAX,
                self.wf(),
                before.wf(),
                were == before.pages(),
                are == self.pages(),
                changes_up_to(were, are, images(changed@), i as int),
        {
            let ghost so_far = changed@;
            let changed_page: Option<Vec<u8>> = page_change(
                page_slot(&self.slots, i),
                page_slot(&before.slots, i),
            );
            let ghost id = (i + 1) as u64;
            proof {
                assert(are.dom().contains(id) <==> i < n && self.slots@[i as int] is Some);
                assert(were.dom().contains(id) <==> i < m && before.slots@[i as int] is Some);
            }
            match changed_page {
                Some(page) => {
                    changed.push((i as u64 + 1, page));
                    proof {
                        lemma_one_changed(were, are, images(so_far), i as int, page@);
                        assert(images(changed@) =~= images(so_far).push((id, page@)));
                    }
                },
                None => {
                    proof {
                        lemma_none_changed(were, are, images(so_far), i as int);
                    }
                },
            }
        }
        proof {
            assert forall|id: PageId| #[trigger] differs(were, are, id) implies pictured(
                images(changed@),
                id,
            ) by {
                assert(1 <= id <= most);
            }
            if changed@.len() == 0 {
                assert forall|id: PageId| #[trigger] are.dom().contains(id) == were.dom().contains(
                    id,
                ) by {
                    if differs(were, are, id) {
                        assert(pictured(images(changed@), id));
                    }
                }
                assert forall|id: PageId| #[trigger] are.dom().contains(id) implies are[id]
                    == were[id] by {
                    if differs(were, are, id) {
                        assert(pictured(images(changed@), id));
                    }
                }
                assert(are.dom() =~= were.dom());
                assert(are =~= were);
            }
        }
        changed
    }

    /// Every page by its number; a freed one as zeros.
    pub fn into_pages(self) -> (r: Vec<(PageId, Vec<u8>)>)
        requires
            self.wf(),
        ensures
            r@.len() + 1 == self.count(),
            forall|i: int|
                0 <= i < r@.len() ==> (#[trigger] r@[i]).0 == i + 1 && r@[i].1@.len()
                    == USABLE_PAGE_SIZE,
            forall|i: int|
                0 <= i < r@.len() && self.pages().dom().contains((i + 1) as u64) ==> (
                #[trigger] r@[i]).1@ == self.pages()[(i + 1) as u64],
    {
        let n: usize = self.slots.len();
        let mut pages: Vec<(PageId, Vec<u8>)> = Vec::new();
        for i in 0..n
            invariant
                n == self.slots@.len(),
                n < usize::MAX,
                self.wf(),
                pages@.len() == i,
                forall|j: int|
                    0 <= j < i ==> (#[trigger] pages@[j]).0 == j + 1 && pages@[j].1@.len()
                        == USABLE_PAGE_SIZE && (self.slots@[j] matches Some(page) ==> pages@[j].1@
                        == page@),
        {
            let page: Vec<u8> = match &self.slots[i] {
                Some(page) => slice_to_vec(page.as_slice()),
                None => vec![0u8; USABLE_PAGE_SIZE],
            };
            pages.push((i as u64 + 1, page));
        }
        pages
    }
}

impl PageStore for MemoryStore {
    closed spec fn pages(&self) -> Map<PageId, Seq<u8>> {
        slot_pages(self.slots@)
    }

    closed spec fn wf(&self) -> bool {
        &&& self.slots@.len() < usize::MAX
        &&& free_ok(self.slots@, self.free@)
        &&& whole_pages(self.slots@)
    }

    open spec fn reliable(&self) -> bool {
        true
    }

    closed spec fn full(&self) -> bool {
        self.ran_out@
    }

    closed spec fn fresh(&self) -> bool {
        self.slots@.len() == 0
    }

    closed spec fn packed(&self) -> bool {
        self.free@.len() == 0 && forall|i: int|
            0 <= i < self.slots@.len() ==> (#[trigger] self.slots@[i]) is Some
    }

    proof fn lemma_pages(&self) {
    }

    fn allocate_page(&mut self) -> (r: IoResult<PageId>)
        ensures
            match r {
                Ok(id) => final(self).pages()[id] == zeros(USABLE_PAGE_SIZE as int)
                    && final(self).full() == old(self).full() && if old(self).spare() > 0 {
                    final(self).count() == old(self).count() && final(self).spare() + 1
                        == old(self).spare()
                } else {
                    final(self).count() == old(self).count() + 1 && final(self).spare() == 0
                },
                Err(_) => old(self).at_limit() && final(self).count() == old(self).count(),
            },
    {
        let ghost before = self.slots@;
        let page: Vec<u8> = vec![0u8; USABLE_PAGE_SIZE];
        assert(page@ =~= zeros(USABLE_PAGE_SIZE as int));
        if self.free.len() > 0 {
            let ghost free = self.free@;
            let id: u64 = self.free.pop().unwrap();
            assert(id == free[free.len() - 1]);
            self.slots.set((id - 1) as usize, Some(page));
            proof {
                let dom = slot_pages(self.slots@).dom();
                assert(dom =~= slot_pages(before).dom().insert(id));
                assert forall|i: int| 0 <= i < self.free@.len() implies 1
                    <= #[trigger] self.free@[i] <= self.slots@.len() && self.slots@[self.free@[i]
                    - 1] is None by {
                    assert(self.free@[i] == free[i]);
                    assert(free[i] != free[free.len() - 1]);
                }
            }
            return Ok(id);
        }
        let n: usize = self.slots.len();
        if n >= usize::MAX - 1 {
            self.ran_out = Ghost(true);
            return Err(
                IoError::new(ErrorKind::StorageFull, String::from_str("no page is left")),
            );
        }
        self.slots.push(Some(page));
        let id: u64 = n as u64 + 1;
        proof {
            assert(slot_pages(self.slots@).dom() =~= slot_pages(before).dom().insert(id));
        }
        Ok(id)
    }

    fn read_page(&self, id: PageId) -> (r: IoResult<Vec<u8>>) {
        match self.try_read_page(id) {
            Ok(Some(page)) => Ok(page),
            Ok(None) => Err(no_such_page(id)),
            Err(e) => Err(e),
        }
    }

    fn try_read_page(&self, id: PageId) -> (r: IoResult<Option<Vec<u8>>>) {
        if id == 0 || id > self.slots.len() as u64 {
            return Ok(None);
        }
        match &self.slots[(id - 1) as usize] {
            Some(page) => Ok(Some(slice_to_vec(page.as_slice()))),
            None => Ok(None),
        }
    }

    fn write_page(&mut self, id: PageId, data: &[u8]) -> (r: IoResult<()>)
        ensures
            final(self).count() == old(self).count(),
            final(self).spare() == old(self).spare(),
    {
        let ghost before = self.slots@;
        if id == 0 || id > self.slots.len() as u64 || self.slots[(id - 1) as usize].is_none() {
            return Err(no_such_page(id));
        }
        self.slots.set((id - 1) as usize, Some(slice_to_vec(data)));
        proof {
            assert(slot_pages(self.slots@) =~= slot_pages(before).insert(id, data@));
        }
        Ok(())
    }

    fn free_page(&mut self, id: PageId) -> (r: IoResult<()>)
        ensures
            final(self).count() == old(self).count(),
            r is Ok ==> final(self).spare() == old(self).spare() + 1,
    {
        let ghost before = self.slots@;
        if id == 0 || id > self.slots.len() as u64 || self.slots[(id - 1) as usize].is_none() {
            return Err(no_such_page(id));
        }
        self.slots.set((id - 1) as usize, None);
        self.free.push(id);
        proof {
            assert(slot_pages(self.slots@) =~= slot_pages(before).remove(id));
        }
        Ok(())
    }
}

} // verus!

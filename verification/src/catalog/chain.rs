//! The catalog's pages: a chain from page 1, whose cells are the catalog's
//! entries.

use super::entry::{collection_cell, COLLECTION_NAME_AT, KIND_COLLECTION};
use crate::bytes::{bytes_equal, lemma_le_len};
use crate::decode::{corrupt, corrupt_text};
use crate::error::{ErrorKind, IoError, IoResult};
use crate::storage::page::{
    cells_len, lemma_cells_len_update, lemma_live_delete, live, page_bytes, parse_page, PageModel,
    PAGE_HEADER_LEN, SLOT_LEN,
};
use crate::storage::{PageId, PageStore, PageType, SlottedPage, USABLE_PAGE_SIZE};
use crate::text::{decimal, decimal_text, join, joined, lemma_utf8_injective};
use vstd::multiset::Multiset;
use vstd::prelude::*;
use vstd::seq_lib::lemma_multiset_commutative;
use vstd::slice::slice_subrange;
use vstd::utf8::encode_utf8;

verus! {

pub const CATALOG_PAGE_ID: PageId = 1;

/// Whether a page is a catalog page.
pub open spec fn is_catalog_page(pages: Map<PageId, Seq<u8>>, id: PageId) -> bool {
    id != 0 && pages.dom().contains(id) && (parse_page(pages[id]) matches Some(m) && m.kind
        == PageType::Catalog)
}

/// What is on a page.
pub open spec fn page_at(pages: Map<PageId, Seq<u8>>, id: PageId) -> PageModel {
    parse_page(pages[id])->Some_0
}

/// Where page `i` of a chain links to.
pub open spec fn link(ids: Seq<PageId>, i: int) -> PageId {
    if i + 1 < ids.len() {
        ids[i + 1]
    } else {
        0
    }
}

/// Whether `ids` are the catalog's pages, in order.
pub open spec fn is_chain(pages: Map<PageId, Seq<u8>>, ids: Seq<PageId>) -> bool {
    &&& ids.len() > 0
    &&& ids[0] == CATALOG_PAGE_ID
    &&& ids.no_duplicates()
    &&& forall|i: int|
        0 <= i < ids.len() ==> is_catalog_page(pages, #[trigger] ids[i]) && page_at(
            pages,
            ids[i],
        ).next == link(ids, i)
}

/// Whether `pages` hold a whole catalog chain.
pub open spec fn has_chain(pages: Map<PageId, Seq<u8>>) -> bool {
    exists|ids: Seq<PageId>| is_chain(pages, ids)
}

/// The catalog's pages.
pub open spec fn chain(pages: Map<PageId, Seq<u8>>) -> Seq<PageId> {
    choose|ids: Seq<PageId>| is_chain(pages, ids)
}

proof fn lemma_chain_alike(pages: Map<PageId, Seq<u8>>, a: Seq<PageId>, b: Seq<PageId>, i: int)
    requires
        is_chain(pages, a),
        is_chain(pages, b),
        0 <= i < a.len(),
    ensures
        i < b.len() && a[i] == b[i],
    decreases i,
{
    if i > 0 {
        lemma_chain_alike(pages, a, b, i - 1);
        assert(page_at(pages, a[i - 1]).next == link(a, i - 1));
        assert(page_at(pages, b[i - 1]).next == link(b, i - 1));
        assert(is_catalog_page(pages, a[i]));
    }
}

/// There is one chain.
pub proof fn lemma_chain_unique(pages: Map<PageId, Seq<u8>>, a: Seq<PageId>)
    requires
        is_chain(pages, a),
    ensures
        has_chain(pages),
        chain(pages) == a,
{
    let b = chain(pages);
    lemma_chain_alike(pages, a, b, a.len() - 1);
    lemma_chain_alike(pages, b, a, b.len() - 1);
    assert(a =~= b) by {
        assert forall|i: int| 0 <= i < a.len() implies a[i] == b[i] by {
            lemma_chain_alike(pages, a, b, i);
        }
    }
}

/// The cells on some pages, in order.
pub open spec fn chain_cells(pages: Map<PageId, Seq<u8>>, ids: Seq<PageId>) -> Seq<Seq<u8>>
    decreases ids.len(),
{
    if ids.len() == 0 {
        seq![]
    } else {
        chain_cells(pages, ids.drop_last()) + live(page_at(pages, ids.last()).slots)
    }
}

/// The catalog's cells.
pub open spec fn catalog_cells(pages: Map<PageId, Seq<u8>>) -> Seq<Seq<u8>> {
    chain_cells(pages, chain(pages))
}

/// Pages that are the same hold the same cells.
pub proof fn lemma_chain_cells_frame(
    before: Map<PageId, Seq<u8>>,
    after: Map<PageId, Seq<u8>>,
    ids: Seq<PageId>,
)
    requires
        forall|i: int| 0 <= i < ids.len() ==> after[#[trigger] ids[i]] == before[ids[i]],
    ensures
        chain_cells(after, ids) == chain_cells(before, ids),
    decreases ids.len(),
{
    if ids.len() > 0 {
        let front = ids.drop_last();
        assert forall|i: int| 0 <= i < front.len() implies after[#[trigger] front[i]]
            == before[front[i]] by {
            assert(front[i] == ids[i]);
        }
        lemma_chain_cells_frame(before, after, front);
        assert(ids.last() == ids[ids.len() - 1]);
    }
}

/// The catalog stands where its pages do.
pub proof fn lemma_catalog_frame(before: Map<PageId, Seq<u8>>, after: Map<PageId, Seq<u8>>)
    requires
        has_chain(before),
        forall|p: PageId| #[trigger]
            chain(before).contains(p) ==> after.dom().contains(p) && after[p] == before[p],
    ensures
        has_chain(after),
        chain(after) == chain(before),
        catalog_cells(after) == catalog_cells(before),
{
    let ids = chain(before);
    assert forall|i: int| 0 <= i < ids.len() implies is_catalog_page(after, #[trigger] ids[i])
        && page_at(after, ids[i]).next == link(ids, i) && after[ids[i]] == before[ids[i]] by {
        assert(ids.contains(ids[i]));
    }
    lemma_chain_unique(after, ids);
    lemma_chain_cells_frame(before, after, ids);
}

/// Which cell is looked for: an entry's own, or a collection's by name.
pub enum Wanted<'a> {
    Cell(&'a [u8]),
    Collection(&'a str),
}

impl<'a> Wanted<'a> {
    pub open spec fn accepts(&self, cell: Seq<u8>) -> bool {
        match self {
            Wanted::Cell(wanted) => cell == wanted@,
            Wanted::Collection(name) => cell.len() >= COLLECTION_NAME_AT && cell[0]
                == KIND_COLLECTION && cell.skip(COLLECTION_NAME_AT as int) == encode_utf8(name@),
        }
    }

    fn test(&self, cell: &[u8]) -> (r: bool)
        ensures
            r == self.accepts(cell@),
    {
        match self {
            Wanted::Cell(wanted) => bytes_equal(cell, wanted),
            Wanted::Collection(name) => {
                if cell.len() < COLLECTION_NAME_AT || cell[0] != KIND_COLLECTION {
                    return false;
                }
                let tail: &[u8] = slice_subrange(cell, COLLECTION_NAME_AT, cell.len());
                assert(tail@ =~= cell@.skip(COLLECTION_NAME_AT as int));
                bytes_equal(tail, name.as_bytes())
            },
        }
    }
}

/// Which collection cells a name accepts.
pub proof fn lemma_wanted_collection(name: Seq<char>, cell: Seq<u8>, other: Seq<char>, meta: super::CollectionMeta)
    requires
        cell == collection_cell(other, meta),
    ensures
        cell.len() >= COLLECTION_NAME_AT,
        cell[0] == KIND_COLLECTION,
        cell.skip(COLLECTION_NAME_AT as int) == encode_utf8(other),
        cell.skip(COLLECTION_NAME_AT as int) == encode_utf8(name) <==> other == name,
{
    lemma_le_len(meta.index_root as nat, 8);
    lemma_le_len(meta.current_data_page as nat, 8);
    assert(cell.skip(17) =~= encode_utf8(other));
    if encode_utf8(other) == encode_utf8(name) {
        lemma_utf8_injective(other, name);
    }
}

/// The pages `seen` and after them those that page `id` leads to, each by its
/// link; `None` if one can't be read or comes twice.
pub open spec fn link_from(
    pages: Map<PageId, Seq<u8>>,
    id: PageId,
    seen: Seq<PageId>,
    steps: nat,
) -> Option<Seq<PageId>>
    decreases steps,
{
    if id == 0 {
        Some(seen)
    } else if steps == 0 || seen.contains(id) || !pages.dom().contains(id) {
        None
    } else {
        match parse_page(pages[id]) {
            Some(m) => link_from(pages, m.next, seen.push(id), (steps - 1) as nat),
            None => None,
        }
    }
}

/// The pages that the catalog's first page leads to; `None` if one can't be
/// read or comes twice.
pub open spec fn linked(pages: Map<PageId, Seq<u8>>) -> Option<Seq<PageId>> {
    link_from(pages, CATALOG_PAGE_ID, seq![], 0x1_0000_0000_0000_0000)
}

/// What is known of the catalog's pages walked so far: `seen` are linked,
/// and lead to `next`.
pub open spec fn walked(pages: Map<PageId, Seq<u8>>, seen: Seq<PageId>, next: PageId) -> bool {
    &&& seen.no_duplicates()
    &&& seen.len() == 0 ==> next == CATALOG_PAGE_ID
    &&& seen.len() > 0 ==> seen[0] == CATALOG_PAGE_ID && page_at(pages, seen.last()).next == next
    &&& forall|i: int|
        0 <= i < seen.len() ==> is_catalog_page(pages, #[trigger] seen[i]) && (i + 1 < seen.len()
            ==> page_at(pages, seen[i]).next == seen[i + 1])
}

proof fn lemma_walked_at(pages: Map<PageId, Seq<u8>>, seen: Seq<PageId>, next: PageId, i: int)
    requires
        walked(pages, seen, next),
        has_chain(pages),
        0 <= i < seen.len(),
    ensures
        i < chain(pages).len(),
        seen[i] == chain(pages)[i],
    decreases i,
{
    let ids = chain(pages);
    assert(is_chain(pages, ids));
    if i > 0 {
        lemma_walked_at(pages, seen, next, i - 1);
        assert(page_at(pages, seen[i - 1]).next == seen[i]);
        assert(page_at(pages, ids[i - 1]).next == link(ids, i - 1));
        assert(is_catalog_page(pages, seen[i]));
    }
}

/// What has been walked is the front of the chain.
pub proof fn lemma_walked(pages: Map<PageId, Seq<u8>>, seen: Seq<PageId>, next: PageId)
    requires
        walked(pages, seen, next),
        has_chain(pages),
    ensures
        seen.len() <= chain(pages).len(),
        forall|i: int| 0 <= i < seen.len() ==> seen[i] == chain(pages)[i],
        next == (if seen.len() < chain(pages).len() {
            chain(pages)[seen.len() as int]
        } else {
            0
        }),
{
    let ids = chain(pages);
    let n = seen.len() as int;
    assert(is_chain(pages, ids));
    assert forall|i: int| 0 <= i < n implies seen[i] == ids[i] by {
        lemma_walked_at(pages, seen, next, i);
    }
    if n > 0 {
        lemma_walked_at(pages, seen, next, n - 1);
        assert(page_at(pages, ids[n - 1]).next == link(ids, n - 1));
    }
}

/// Whether the walk along the catalog's pages comes to a page a second time.
pub open spec fn loops_after(pages: Map<PageId, Seq<u8>>, seen: Seq<PageId>, next: PageId) -> bool {
    walked(pages, seen, next) && seen.contains(next)
}

/// Whether the catalog's pages go round in a loop.
#[verifier::opaque]
pub open spec fn loops(pages: Map<PageId, Seq<u8>>) -> bool {
    exists|seen: Seq<PageId>, next: PageId| loops_after(pages, seen, next)
}

/// The page that comes a second time.
#[verifier::opaque]
pub open spec fn page_again(pages: Map<PageId, Seq<u8>>) -> PageId {
    (choose|seen: Seq<PageId>, next: PageId| loops_after(pages, seen, next)).1
}

/// What loading the catalog says of a page that comes a second time.
pub open spec fn loop_text(id: PageId) -> Seq<char> {
    corrupt_text(
        "catalog page "@ + decimal(id as nat)
            + " comes twice in the chain: it goes round in a loop"@,
    )
}

/// An error about a page that comes a second time.
fn comes_twice(id: PageId) -> (e: IoError)
    ensures
        e.kind == ErrorKind::InvalidData,
        e.message@ == loop_text(id),
{
    let number = decimal_text(id);
    let message = join(
        &[
            "catalog page ",
            number.as_str(),
            " comes twice in the chain: it goes round in a loop",
        ],
    );
    proof {
        reveal_with_fuel(joined, 4);
        assert(message@ =~= "catalog page "@ + decimal(id as nat)
            + " comes twice in the chain: it goes round in a loop"@);
    }
    corrupt(message.as_str())
}

/// Two walks go the same way, as far as both go.
proof fn lemma_same_walk(
    pages: Map<PageId, Seq<u8>>,
    a: Seq<PageId>,
    a_next: PageId,
    b: Seq<PageId>,
    b_next: PageId,
    i: int,
)
    requires
        walked(pages, a, a_next),
        walked(pages, b, b_next),
        0 <= i <= a.len(),
        i < b.len(),
    ensures
        i < a.len() ==> a[i] == b[i],
        i == a.len() ==> a_next == b[i],
    decreases i,
{
    if i > 0 {
        lemma_same_walk(pages, a, a_next, b, b_next, i - 1);
        assert(is_catalog_page(pages, b[i - 1]));
        assert(page_at(pages, b[i - 1]).next == b[i]);
        if i < a.len() {
            assert(is_catalog_page(pages, a[i - 1]));
        }
    }
}

/// A walk that can't go on, or comes to its end, never meets a loop; one
/// that meets a page again is the only one that does.
proof fn lemma_loop(pages: Map<PageId, Seq<u8>>, seen: Seq<PageId>, next: PageId)
    requires
        walked(pages, seen, next),
        !is_catalog_page(pages, next) || seen.contains(next),
    ensures
        seen.contains(next) ==> loops(pages) && page_again(pages) == next,
        !seen.contains(next) ==> !loops(pages),
{
    reveal(loops);
    reveal(page_again);
    assert forall|other: Seq<PageId>, p: PageId| #[trigger]
        loops_after(pages, other, p) implies seen.contains(next) && p == next by {
        if other.len() > seen.len() {
            lemma_same_walk(pages, seen, next, other, p, seen.len() as int);
            assert(is_catalog_page(pages, other[seen.len() as int]));
            let k = choose|k: int| 0 <= k < seen.len() && seen[k] == next;
            lemma_same_walk(pages, seen, next, other, p, k);
            assert(other[k] == other[seen.len() as int]);
            assert(false);
        } else {
            let k = choose|k: int| 0 <= k < other.len() && other[k] == p;
            if other.len() < seen.len() {
                lemma_same_walk(pages, other, p, seen, next, other.len() as int);
                lemma_same_walk(pages, other, p, seen, next, k);
                assert(seen[k] == seen[other.len() as int]);
                assert(false);
            } else {
                lemma_same_walk(pages, seen, next, other, p, k);
                assert(seen[k] == p);
                lemma_same_next(pages, seen, next, other, p);
            }
        }
    }
    if seen.contains(next) {
        assert(loops_after(pages, seen, next));
    }
}

/// Two walks of one length lead to the same page.
proof fn lemma_same_next(
    pages: Map<PageId, Seq<u8>>,
    a: Seq<PageId>,
    a_next: PageId,
    b: Seq<PageId>,
    b_next: PageId,
)
    requires
        walked(pages, a, a_next),
        walked(pages, b, b_next),
        a.len() == b.len(),
    ensures
        a_next == b_next,
{
    if a.len() > 0 {
        lemma_same_walk(pages, a, a_next, b, b_next, a.len() - 1);
    }
}

pub fn listed(ids: &Vec<PageId>, id: PageId) -> (r: bool)
    ensures
        r == ids@.contains(id),
{
    let n: usize = ids.len();
    for i in 0..n
        invariant
            n == ids@.len(),
            forall|k: int| 0 <= k < i ==> ids@[k] != id,
    {
        if ids[i] == id {
            assert(ids@[i as int] == id);
            return true;
        }
    }
    false
}

/// The catalog's pages, each with what is on it. Catalog pages link to the
/// next; one seen twice is a loop, which would otherwise be followed
/// forever.
#[verifier::rlimit(30)]
pub fn read_chain<S: PageStore>(store: &S) -> (r: IoResult<Vec<(PageId, SlottedPage)>>)
    requires
        store.wf(),
    ensures
        match r {
            Ok(found) => {
                &&& has_chain(store.pages())
                &&& !loops(store.pages())
                &&& found@.len() == chain(store.pages()).len()
                &&& forall|i: int|
                    0 <= i < found@.len() ==> (#[trigger] found@[i]).0 == chain(store.pages())[i]
                        && found@[i].1.wf() && found@[i].1@ == page_at(store.pages(), found@[i].0)
            },
            Err(e) => !store.reliable() || (!has_chain(store.pages()) && e.kind
                == ErrorKind::InvalidData && (loops(store.pages()) ==> e.message@ == loop_text(
                page_again(store.pages()),
            ))),
        },
{
    let ghost pages = store.pages();
    let mut seen: Vec<PageId> = Vec::new();
    let mut found: Vec<(PageId, SlottedPage)> = Vec::new();
    let mut page_id: PageId = CATALOG_PAGE_ID;
    loop
        invariant
            store.wf(),
            pages == store.pages(),
            walked(pages, seen@, page_id),
            page_id != 0,
            found@.len() == seen@.len(),
            forall|i: int|
                0 <= i < found@.len() ==> (#[trigger] found@[i]).0 == seen@[i] && found@[i].1.wf()
                    && found@[i].1@ == page_at(pages, found@[i].0),
        decreases usize::MAX - seen.len(),
    {
        proof {
            store.lemma_pages();
            if has_chain(pages) {
                lemma_walked(pages, seen@, page_id);
                assert(is_catalog_page(pages, chain(pages)[seen@.len() as int]));
            }
        }
        if listed(&seen, page_id) {
            proof {
                if has_chain(pages) {
                    let k = choose|k: int| 0 <= k < seen@.len() && seen@[k] == page_id;
                    assert(chain(pages)[k] == chain(pages)[seen@.len() as int]);
                }
            }
            proof {
                lemma_loop(pages, seen@, page_id);
            }
            return Err(comes_twice(page_id));
        }
        proof {
            if !is_catalog_page(pages, page_id) {
                lemma_loop(pages, seen@, page_id);
            }
        }
        let bytes = match store.try_read_page(page_id) {
            Ok(Some(bytes)) => bytes,
            Ok(None) => {
                let number = decimal_text(page_id);
                return Err(
                    corrupt(
                        join(
                            &[
                                "catalog chain references page ",
                                number.as_str(),
                                ", which doesn't exist",
                            ],
                        ).as_str(),
                    ),
                );
            },
            Err(e) => return Err(e),
        };
        let page = match SlottedPage::from_bytes(bytes) {
            Ok(page) => page,
            Err(e) => return Err(e),
        };
        match page.page_type() {
            PageType::Catalog => {},
            _ => {
                let number = decimal_text(page_id);
                return Err(
                    corrupt(
                        join(
                            &["page ", number.as_str(), " was expected to be a catalog page"],
                        ).as_str(),
                    ),
                );
            },
        }
        let next: PageId = page.next_page();
        let ghost before = seen@;
        seen.push(page_id);
        found.push((page_id, page));
        proof {
            assert forall|i: int| 0 <= i < seen@.len() implies is_catalog_page(
                pages,
                #[trigger] seen@[i],
            ) && (i + 1 < seen@.len() ==> page_at(pages, seen@[i]).next == seen@[i + 1]) by {
                if i < before.len() {
                    assert(seen@[i] == before[i]);
                    if i + 1 < before.len() {
                        assert(seen@[i + 1] == before[i + 1]);
                    }
                }
            }
            assert(walked(pages, seen@, next));
        }
        if next == 0 {
            proof {
                assert(is_chain(pages, seen@)) by {
                    assert forall|i: int| 0 <= i < seen@.len() implies is_catalog_page(
                        pages,
                        #[trigger] seen@[i],
                    ) && page_at(pages, seen@[i]).next == link(seen@, i) by {}
                }
                lemma_chain_unique(pages, seen@);
                lemma_loop(pages, seen@, next);
            }
            return Ok(found);
        }
        page_id = next;
    }
}

// ---------------------------------------------------------------------
// Changing the catalog's cells.

/// One page of the chain changed: its cells take the place of those it had.
proof fn lemma_cells_changed(
    before: Map<PageId, Seq<u8>>,
    after: Map<PageId, Seq<u8>>,
    ids: Seq<PageId>,
    k: int,
)
    requires
        0 <= k < ids.len(),
        ids.no_duplicates(),
        forall|i: int| 0 <= i < ids.len() && i != k ==> after[#[trigger] ids[i]] == before[ids[i]],
    ensures
        chain_cells(after, ids).to_multiset().add(
            live(page_at(before, ids[k]).slots).to_multiset(),
        ) =~= chain_cells(before, ids).to_multiset().add(
            live(page_at(after, ids[k]).slots).to_multiset(),
        ),
    decreases ids.len(),
{
    let front = ids.drop_last();
    let last = ids.last();
    lemma_multiset_commutative(chain_cells(after, front), live(page_at(after, last).slots));
    lemma_multiset_commutative(chain_cells(before, front), live(page_at(before, last).slots));
    assert forall|i: int| 0 <= i < front.len() && i != k implies after[#[trigger] front[i]]
        == before[front[i]] by {
        assert(front[i] == ids[i]);
    }
    let whole_after = chain_cells(after, ids).to_multiset();
    let whole_before = chain_cells(before, ids).to_multiset();
    let here_after = live(page_at(after, ids[k]).slots).to_multiset();
    let here_before = live(page_at(before, ids[k]).slots).to_multiset();
    let front_after = chain_cells(after, front).to_multiset();
    let front_before = chain_cells(before, front).to_multiset();
    let last_after = live(page_at(after, last).slots).to_multiset();
    let last_before = live(page_at(before, last).slots).to_multiset();
    assert(whole_after =~= front_after.add(last_after));
    assert(whole_before =~= front_before.add(last_before));
    if k < front.len() {
        lemma_cells_changed(before, after, front, k);
        assert(front[k] == ids[k]);
        assert(after[ids[ids.len() - 1]] == before[ids[ids.len() - 1]]);
        assert(front_after.add(here_before) =~= front_before.add(here_after));
        assert forall|v: Seq<u8>| #[trigger] whole_after.add(here_before).count(v)
            == whole_before.add(here_after).count(v) by {
            assert(front_after.add(here_before).count(v) == front_before.add(here_after).count(v));
        }
    } else {
        lemma_chain_cells_frame(before, after, front);
        assert forall|v: Seq<u8>| #[trigger] whole_after.add(here_before).count(v)
            == whole_before.add(here_after).count(v) by {}
    }
    assert(whole_after.add(here_before) =~= whole_before.add(here_after));
}

/// What is gained on one side is gained on the other.
pub proof fn lemma_gained(
    new: Multiset<Seq<u8>>,
    old_cells: Multiset<Seq<u8>>,
    same: Multiset<Seq<u8>>,
    cell: Seq<u8>,
)
    requires
        new.add(same) =~= old_cells.add(same.insert(cell)),
    ensures
        new =~= old_cells.insert(cell),
{
    assert forall|v: Seq<u8>| #[trigger] new.count(v) == old_cells.insert(cell).count(v) by {
        assert(new.add(same).count(v) == old_cells.add(same.insert(cell)).count(v));
    }
}

/// What is lost on one side is lost on the other.
pub proof fn lemma_lost(
    new: Multiset<Seq<u8>>,
    old_cells: Multiset<Seq<u8>>,
    same: Multiset<Seq<u8>>,
    cell: Seq<u8>,
)
    requires
        new.add(same.insert(cell)) =~= old_cells.add(same),
    ensures
        new =~= old_cells.remove(cell),
{
    assert forall|v: Seq<u8>| #[trigger] new.count(v) == old_cells.remove(cell).count(v) by {
        assert(new.add(same.insert(cell)).count(v) == old_cells.add(same).count(v));
    }
}

/// What takes the place of something on one side does on the other.
pub proof fn lemma_replaced(
    new: Multiset<Seq<u8>>,
    old_cells: Multiset<Seq<u8>>,
    same: Multiset<Seq<u8>>,
    was: Seq<u8>,
    now: Seq<u8>,
)
    requires
        new.add(same.insert(was)) =~= old_cells.add(same.insert(now)),
        old_cells.count(was) > 0,
    ensures
        new =~= old_cells.remove(was).insert(now),
{
    assert forall|v: Seq<u8>| #[trigger] new.count(v) == old_cells.remove(was).insert(now).count(
        v,
    ) by {
        assert(new.add(same.insert(was)).count(v) == old_cells.add(same.insert(now)).count(v));
    }
}

/// What a change to the catalog does to the pages: the chain may have a new
/// page at its end; nothing outside the chain changes.
pub open spec fn catalog_written(
    before: Map<PageId, Seq<u8>>,
    after: Map<PageId, Seq<u8>>,
) -> bool {
    &&& has_chain(after)
    &&& forall|p: PageId| #[trigger] chain(before).contains(p) ==> chain(after).contains(p)
    &&& forall|p: PageId| #[trigger]
        chain(after).contains(p) ==> chain(before).contains(p) || !before.dom().contains(p)
    &&& forall|p: PageId| #[trigger]
        after.dom().contains(p) <==> before.dom().contains(p) || chain(after).contains(p)
    &&& forall|p: PageId| #[trigger]
        before.dom().contains(p) && !chain(before).contains(p) ==> after[p] == before[p]
}

/// A page of the chain was rewritten.
proof fn lemma_page_rewritten(
    before: Map<PageId, Seq<u8>>,
    after: Map<PageId, Seq<u8>>,
    k: int,
    m: PageModel,
)
    requires
        has_chain(before),
        0 <= k < chain(before).len(),
        after == before.insert(chain(before)[k], page_bytes(m)),
        parse_page(page_bytes(m)) == Some(m),
        m.kind == PageType::Catalog,
        m.next == page_at(before, chain(before)[k]).next,
    ensures
        catalog_written(before, after),
        chain(after) == chain(before),
        catalog_cells(after).to_multiset().add(
            live(page_at(before, chain(before)[k]).slots).to_multiset(),
        ) =~= catalog_cells(before).to_multiset().add(live(m.slots).to_multiset()),
{
    let ids = chain(before);
    assert(is_chain(after, ids)) by {
        assert forall|i: int| 0 <= i < ids.len() implies is_catalog_page(after, #[trigger] ids[i])
            && page_at(after, ids[i]).next == link(ids, i) by {
            if i != k {
                assert(ids[i] != ids[k]);
            }
            assert(is_catalog_page(before, ids[i]));
        }
    }
    lemma_chain_unique(after, ids);
    assert forall|i: int| 0 <= i < ids.len() && i != k implies after[#[trigger] ids[i]]
        == before[ids[i]] by {
        assert(ids[i] != ids[k]);
    }
    lemma_cells_changed(before, after, ids, k);
    assert(is_catalog_page(before, ids[k]));
    assert forall|p: PageId| #[trigger] after.dom().contains(p) <==> before.dom().contains(p)
        || ids.contains(p) by {
        if ids.contains(p) {
            let i = choose|i: int| 0 <= i < ids.len() && ids[i] == p;
            assert(is_catalog_page(before, ids[i]));
        }
    }
    assert(ids.contains(ids[k]));
}

proof fn lemma_live_push(slots: Seq<Option<Seq<u8>>>, cell: Seq<u8>)
    ensures
        live(slots.push(Some(cell))) == live(slots).push(cell),
        cells_len(slots.push(Some(cell))) == cells_len(slots) + cell.len(),
{
    assert(slots.push(Some(cell)).drop_last() =~= slots);
}

/// A page at the end of the chain was added.
proof fn lemma_page_added(
    before: Map<PageId, Seq<u8>>,
    after: Map<PageId, Seq<u8>>,
    m: PageModel,
    new_id: PageId,
    new: PageModel,
)
    requires
        has_chain(before),
        new_id != 0,
        !before.dom().contains(new_id),
        m == (PageModel { next: new_id, ..page_at(before, chain(before).last()) }),
        parse_page(page_bytes(m)) == Some(m),
        parse_page(page_bytes(new)) == Some(new),
        new.kind == PageType::Catalog,
        new.next == 0,
        after.dom() =~= before.dom().insert(new_id),
        after[chain(before).last()] == page_bytes(m),
        after[new_id] == page_bytes(new),
        forall|p: PageId| #[trigger]
            before.dom().contains(p) && p != chain(before).last() ==> after[p] == before[p],
    ensures
        catalog_written(before, after),
        chain(after) == chain(before).push(new_id),
        catalog_cells(after) == catalog_cells(before) + live(new.slots),
{
    let ids = chain(before);
    let longer = ids.push(new_id);
    let n = ids.len();
    assert forall|i: int| 0 <= i < n implies before.dom().contains(#[trigger] ids[i]) && ids[i]
        != new_id by {
        assert(is_catalog_page(before, ids[i]));
    }
    assert(is_chain(after, longer)) by {
        assert forall|i: int, j: int|
            0 <= i < longer.len() && 0 <= j < longer.len() && i != j implies longer[i]
            != longer[j] by {
            if i < n {
                assert(longer[i] == ids[i]);
            }
            if j < n {
                assert(longer[j] == ids[j]);
            }
        }
        assert forall|i: int| 0 <= i < longer.len() implies is_catalog_page(
            after,
            #[trigger] longer[i],
        ) && page_at(after, longer[i]).next == link(longer, i) by {
            if i < n {
                assert(is_catalog_page(before, ids[i]));
                assert(page_at(before, ids[i]).next == link(ids, i));
                if i < n - 1 {
                    assert(ids[i] != ids[n - 1]);
                    assert(after[ids[i]] == before[ids[i]]);
                    assert(longer[i + 1] == ids[i + 1]);
                }
            }
        }
    }
    lemma_chain_unique(after, longer);
    assert(longer.drop_last() =~= ids);
    // The last old page keeps its cells.
    let front = ids.drop_last();
    assert forall|i: int| 0 <= i < front.len() implies after[#[trigger] front[i]]
        == before[front[i]] by {
        assert(front[i] == ids[i]);
        assert(ids[i] != ids[n - 1]);
        assert(before.dom().contains(ids[i]));
    }
    lemma_chain_cells_frame(before, after, front);
    assert(chain_cells(after, ids) == chain_cells(before, ids));
    assert(ids.contains(ids.last()));
    assert forall|p: PageId| #[trigger] longer.contains(p) <==> ids.contains(p) || p == new_id by {
        if longer.contains(p) {
            let i = choose|i: int| 0 <= i < longer.len() && longer[i] == p;
            if i < n {
                assert(ids[i] == p);
            }
        }
        if ids.contains(p) {
            let i = choose|i: int| 0 <= i < ids.len() && ids[i] == p;
            assert(longer[i] == p);
        }
        if p == new_id {
            assert(longer[n as int] == p);
        }
    }
    assert forall|p: PageId| #[trigger] after.dom().contains(p) <==> before.dom().contains(p)
        || longer.contains(p) by {
        if ids.contains(p) {
            let i = choose|i: int| 0 <= i < ids.len() && ids[i] == p;
            assert(is_catalog_page(before, ids[i]));
        }
    }
}

/// Adds a cell to the first catalog page with room for it, chaining a new
/// page onto the end if none has.
pub fn append_cell<S: PageStore>(store: &mut S, cell: &[u8]) -> (r: IoResult<()>)
    requires
        old(store).wf(),
        PAGE_HEADER_LEN + SLOT_LEN + cell@.len() <= USABLE_PAGE_SIZE,
    ensures
        final(store).wf(),
        final(store).reliable() == old(store).reliable(),
        old(store).packed() && r is Ok ==> final(store).packed(),
        match r {
            Ok(()) => has_chain(old(store).pages()) && catalog_written(
                old(store).pages(),
                final(store).pages(),
            ) && catalog_cells(final(store).pages()).to_multiset() =~= catalog_cells(
                old(store).pages(),
            ).to_multiset().insert(cell@),
            Err(_) => !old(store).reliable() || final(store).full() || !has_chain(
                old(store).pages(),
            ),
        },
{
    broadcast use vstd::seq_lib::group_to_multiset_ensures;

    let ghost before = store.pages();
    let found = match read_chain(store) {
        Ok(found) => found,
        Err(e) => return Err(e),
    };
    let ghost ids = chain(before);
    let n: usize = found.len();
    for i in 0..n
        invariant
            store.wf(),
            store.pages() == before,
            before == old(store).pages(),
            store.reliable() == old(store).reliable(),
            old(store).packed() ==> store.packed(),
            ids == chain(before),
            has_chain(before),
            n == found@.len() == ids.len(),
            forall|k: int|
                0 <= k < found@.len() ==> (#[trigger] found@[k]).0 == ids[k] && found@[k].1.wf()
                    && found@[k].1@ == page_at(before, found@[k].0),
    {
        if found[i].1.has_room_for(cell.len()) {
            let page_id: PageId = found[i].0;
            let mut page = found[i].1.clone();
            let ghost m = page@;
            proof {
                assert(is_catalog_page(before, ids[i as int]));
                lemma_live_push(m.slots, cell@);
            }
            match page.insert_cell(cell) {
                Some(_) => {},
                None => return Err(corrupt("a catalog page has less room than it says")),
            }
            let ghost changed = page@;
            let bytes = page.into_bytes();
            match store.write_page(page_id, bytes.as_slice()) {
                Ok(()) => {},
                Err(e) => return Err(e),
            }
            proof {
                broadcast use vstd::seq_lib::group_to_multiset_ensures;

                lemma_page_rewritten(before, store.pages(), i as int, changed);
                let old_cells = catalog_cells(before).to_multiset();
                let was = live(m.slots);
                assert(live(changed.slots) == was.push(cell@));
                assert(was.push(cell@).to_multiset() =~= was.to_multiset().insert(cell@));
                lemma_gained(
                    catalog_cells(store.pages()).to_multiset(),
                    old_cells,
                    was.to_multiset(),
                    cell@,
                );
            }
            return Ok(());
        }
    }
    let new_id: PageId = match store.allocate_page() {
        Ok(id) => id,
        Err(e) => return Err(e),
    };
    let ghost grown = store.pages();
    proof {
        store.lemma_pages();
        assert(grown.dom().contains(new_id));
        assert(is_catalog_page(before, ids[n - 1]));
    }
    let last_id: PageId = found[n - 1].0;
    let mut last = found[n - 1].1.clone();
    last.set_next_page(new_id);
    let ghost m = last@;
    let bytes = last.into_bytes();
    match store.write_page(last_id, bytes.as_slice()) {
        Ok(()) => {},
        Err(e) => return Err(e),
    }
    let mut page = SlottedPage::new(PageType::Catalog);
    proof {
        lemma_live_push(page@.slots, cell@);
    }
    match page.insert_cell(cell) {
        Some(_) => {},
        None => return Err(corrupt("a catalog cell is longer than a page")),
    }
    let ghost new = page@;
    let bytes = page.into_bytes();
    match store.write_page(new_id, bytes.as_slice()) {
        Ok(()) => {},
        Err(e) => return Err(e),
    }
    proof {
        let after = store.pages();
        lemma_page_added(before, after, m, new_id, new);
        assert(new.slots.drop_last() =~= seq![]);
        assert(live(new.slots) =~= seq![cell@]);
        assert(catalog_cells(after) =~= catalog_cells(before).push(cell@));
    }
    Ok(())
}

/// Where a cell was found: page `k` of the chain, and its slot.
pub open spec fn found_at(
    pages: Map<PageId, Seq<u8>>,
    page_id: PageId,
    page: PageModel,
    slot: u16,
) -> bool {
    &&& chain(pages).contains(page_id)
    &&& page == page_at(pages, page_id)
    &&& slot < page.slots.len()
    &&& page.slots[slot as int] is Some
}

/// Every cell on a page of the chain is a catalog cell.
proof fn lemma_cell_in_chain(pages: Map<PageId, Seq<u8>>, ids: Seq<PageId>, k: int, j: int)
    requires
        0 <= k < ids.len(),
        0 <= j < live(page_at(pages, ids[k]).slots).len(),
    ensures
        chain_cells(pages, ids).contains(live(page_at(pages, ids[k]).slots)[j]),
    decreases ids.len(),
{
    let front = ids.drop_last();
    let cell = live(page_at(pages, ids[k]).slots)[j];
    let head = chain_cells(pages, front);
    let whole = chain_cells(pages, ids);
    if k < front.len() {
        assert(front[k] == ids[k]);
        lemma_cell_in_chain(pages, front, k, j);
        let i = choose|i: int| 0 <= i < head.len() && head[i] == cell;
        assert(whole[i] == cell);
    } else {
        assert(whole[head.len() + j] == cell);
    }
}

/// Every catalog cell is on some page of the chain.
proof fn lemma_chain_has_cell(pages: Map<PageId, Seq<u8>>, ids: Seq<PageId>, cell: Seq<u8>) -> (at: (
    int,
    int,
))
    requires
        chain_cells(pages, ids).contains(cell),
    ensures
        0 <= at.0 < ids.len(),
        0 <= at.1 < live(page_at(pages, ids[at.0]).slots).len(),
        live(page_at(pages, ids[at.0]).slots)[at.1] == cell,
    decreases ids.len(),
{
    let whole = chain_cells(pages, ids);
    let i = choose|i: int| 0 <= i < whole.len() && whole[i] == cell;
    let front = ids.drop_last();
    let head = chain_cells(pages, front);
    if i < head.len() {
        assert(head[i] == cell);
        let at = lemma_chain_has_cell(pages, front, cell);
        assert(front[at.0] == ids[at.0]);
        at
    } else {
        (ids.len() - 1, i - head.len())
    }
}

/// The first catalog cell that is wanted: its page's number, the page, and
/// its slot.
pub fn find_cell<'a, S: PageStore>(store: &S, wanted: &Wanted<'a>) -> (r: IoResult<
    Option<(PageId, SlottedPage, u16)>,
>)
    requires
        store.wf(),
    ensures
        match r {
            Ok(Some((page_id, page, slot))) => has_chain(store.pages()) && page.wf() && found_at(
                store.pages(),
                page_id,
                page@,
                slot,
            ) && wanted.accepts(page@.slots[slot as int]->Some_0) && catalog_cells(
                store.pages(),
            ).contains(page@.slots[slot as int]->Some_0),
            Ok(None) => has_chain(store.pages()) && forall|cell: Seq<u8>| #[trigger]
                catalog_cells(store.pages()).contains(cell) ==> !wanted.accepts(cell),
            Err(_) => !store.reliable() || !has_chain(store.pages()),
        },
{
    let ghost pages = store.pages();
    let found = match read_chain(store) {
        Ok(found) => found,
        Err(e) => return Err(e),
    };
    let ghost ids = chain(pages);
    let n: usize = found.len();
    for i in 0..n
        invariant
            store.wf(),
            pages == store.pages(),
            ids == chain(pages),
            has_chain(pages),
            n == found@.len() == ids.len(),
            forall|k: int|
                0 <= k < found@.len() ==> (#[trigger] found@[k]).0 == ids[k] && found@[k].1.wf()
                    && found@[k].1@ == page_at(pages, found@[k].0),
            forall|k: int, j: int|
                0 <= k < i && 0 <= j < live(page_at(pages, ids[k]).slots).len()
                    ==> !wanted.accepts(#[trigger] live(page_at(pages, ids[k]).slots)[j]),
    {
        let cells = found[i].1.iter_cells();
        let m: usize = cells.len();
        let ghost here = live(page_at(pages, ids[i as int]).slots);
        assert(found@[i as int].0 == ids[i as int]);
        for j in 0..m
            invariant
                m == cells@.len() == here.len(),
                pages == store.pages(),
                has_chain(pages),
                ids == chain(pages),
                0 <= i < ids.len(),
                ids.len() == found@.len(),
                found@[i as int].0 == ids[i as int],
                found@[i as int].1.wf(),
                found@[i as int].1@ == page_at(pages, ids[i as int]),
                here == live(page_at(pages, ids[i as int]).slots),
                forall|k: int| 0 <= k < cells@.len() ==> (#[trigger] cells@[k]).1@ == here[k],
                forall|k: int|
                    0 <= k < cells@.len() ==> (#[trigger] cells@[k]).0
                        < found@[i as int].1@.slots.len()
                        && found@[i as int].1@.slots[cells@[k].0 as int] == Some(cells@[k].1@),
                forall|k: int| 0 <= k < j ==> !wanted.accepts(#[trigger] here[k]),
        {
            if wanted.test(cells[j].1) {
                let slot: u16 = cells[j].0;
                let page_id: PageId = found[i].0;
                let page = found[i].1.clone();
                proof {
                    assert(cells@[j as int].1@ == here[j as int]);
                    lemma_cell_in_chain(pages, ids, i as int, j as int);
                    assert(ids.contains(ids[i as int]));
                }
                return Ok(Some((page_id, page, slot)));
            }
            assert(cells@[j as int].1@ == here[j as int]);
        }
    }
    proof {
        assert forall|cell: Seq<u8>| #[trigger] catalog_cells(pages).contains(
            cell,
        ) implies !wanted.accepts(cell) by {
            let (k, j) = lemma_chain_has_cell(pages, ids, cell);
            assert(!wanted.accepts(live(page_at(pages, ids[k]).slots)[j]));
        }
    }
    Ok(None)
}

/// Takes a cell that was found out of the catalog.
pub fn remove_cell<S: PageStore>(
    store: &mut S,
    page_id: PageId,
    page: SlottedPage,
    slot: u16,
) -> (r: IoResult<()>)
    requires
        old(store).wf(),
        page.wf(),
        has_chain(old(store).pages()),
        found_at(old(store).pages(), page_id, page@, slot),
    ensures
        final(store).wf(),
        final(store).reliable() == old(store).reliable(),
        old(store).packed() && r is Ok ==> final(store).packed(),
        match r {
            Ok(()) => catalog_written(old(store).pages(), final(store).pages()) && catalog_cells(
                final(store).pages(),
            ).to_multiset() =~= catalog_cells(old(store).pages()).to_multiset().remove(
                page@.slots[slot as int]->Some_0,
            ),
            Err(_) => !old(store).reliable(),
        },
{
    broadcast use vstd::seq_lib::group_to_multiset_ensures;

    let ghost before = store.pages();
    let ghost m = page@;
    let ghost ids = chain(before);
    let ghost k = choose|k: int| 0 <= k < ids.len() && ids[k] == page_id;
    assert(is_catalog_page(before, ids[k]));
    let mut page = page;
    page.delete_cell(slot);
    let ghost changed = page@;
    let bytes = page.into_bytes();
    match store.write_page(page_id, bytes.as_slice()) {
        Ok(()) => {},
        Err(e) => return Err(e),
    }
    proof {
        let cell = m.slots[slot as int]->Some_0;
        let at = live(m.slots.take(slot as int)).len() as int;
        lemma_live_delete(m.slots, slot as int);
        lemma_page_rewritten(before, store.pages(), k, changed);
        let was = live(m.slots);
        assert(was[at] == cell);
        assert(live(changed.slots) == was.remove(at));
        assert(was.to_multiset() =~= was.remove(at).to_multiset().insert(cell));
        lemma_lost(
            catalog_cells(store.pages()).to_multiset(),
            catalog_cells(before).to_multiset(),
            was.remove(at).to_multiset(),
            cell,
        );
    }
    Ok(())
}

/// Where a live cell is replaced.
proof fn lemma_live_update(slots: Seq<Option<Seq<u8>>>, i: int, cell: Seq<u8>)
    requires
        0 <= i < slots.len(),
        slots[i] is Some,
    ensures
        live(slots.take(i)).len() < live(slots).len(),
        live(slots)[live(slots.take(i)).len() as int] == slots[i]->Some_0,
        live(slots.update(i, Some(cell))) == live(slots).update(
            live(slots.take(i)).len() as int,
            cell,
        ),
    decreases slots.len(),
{
    let changed = slots.update(i, Some(cell));
    let front = slots.drop_last();
    let at = live(slots.take(i)).len() as int;
    if i == slots.len() - 1 {
        assert(changed.drop_last() =~= front);
        assert(slots.take(i) =~= front);
        assert(live(slots).update(at, cell) =~= live(front).push(cell));
    } else {
        lemma_live_update(front, i, cell);
        assert(changed.drop_last() =~= front.update(i, Some(cell)));
        assert(front.take(i) =~= slots.take(i));
        match slots.last() {
            Some(other) => {
                assert(live(slots).update(at, cell) =~= live(front).update(at, cell).push(other));
            },
            None => {},
        }
    }
}

/// Puts another cell of the same length in place of one that was found.
pub fn replace_cell<S: PageStore>(
    store: &mut S,
    page_id: PageId,
    page: SlottedPage,
    slot: u16,
    cell: &[u8],
) -> (r: IoResult<()>)
    requires
        old(store).wf(),
        page.wf(),
        has_chain(old(store).pages()),
        found_at(old(store).pages(), page_id, page@, slot),
        cell@.len() == page@.slots[slot as int]->Some_0.len(),
    ensures
        final(store).wf(),
        final(store).reliable() == old(store).reliable(),
        old(store).packed() && r is Ok ==> final(store).packed(),
        match r {
            Ok(()) => catalog_written(old(store).pages(), final(store).pages()) && catalog_cells(
                final(store).pages(),
            ).to_multiset() =~= catalog_cells(old(store).pages()).to_multiset().remove(
                page@.slots[slot as int]->Some_0,
            ).insert(cell@),
            Err(_) => !old(store).reliable(),
        },
{
    broadcast use vstd::seq_lib::group_to_multiset_ensures;

    let ghost before = store.pages();
    let ghost m = page@;
    let ghost ids = chain(before);
    let ghost k = choose|k: int| 0 <= k < ids.len() && ids[k] == page_id;
    proof {
        assert(is_catalog_page(before, ids[k]));
        page.lemma_wf_fits();
        lemma_cells_len_update(m.slots, slot as int, Some(cell@));
    }
    let mut page = page;
    if !page.update_cell(slot, cell) {
        return Err(corrupt("a catalog page has less room than it says"));
    }
    let ghost changed = page@;
    let bytes = page.into_bytes();
    match store.write_page(page_id, bytes.as_slice()) {
        Ok(()) => {},
        Err(e) => return Err(e),
    }
    proof {
        let was_cell = m.slots[slot as int]->Some_0;
        let at = live(m.slots.take(slot as int)).len() as int;
        lemma_live_update(m.slots, slot as int, cell@);
        lemma_page_rewritten(before, store.pages(), k, changed);
        let was = live(m.slots);
        let rest = was.remove(at);
        assert(was =~= rest.insert(at, was_cell));
        assert(was.update(at, cell@) =~= rest.insert(at, cell@));
        assert(was.to_multiset() =~= rest.to_multiset().insert(was_cell));
        assert(was.update(at, cell@).to_multiset() =~= rest.to_multiset().insert(cell@));
        lemma_cell_in_chain(before, ids, k, at);
        lemma_replaced(
            catalog_cells(store.pages()).to_multiset(),
            catalog_cells(before).to_multiset(),
            rest.to_multiset(),
            was_cell,
            cell@,
        );
    }
    Ok(())
}

} // verus!

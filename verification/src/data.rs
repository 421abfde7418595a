//! Documents on data pages. Documents are packed: an insert goes into the
//! collection's current page if it has room, and only allocates a new page,
//! which becomes current, when it doesn't. A document too large for an
//! empty data page goes to a chain of overflow pages; its cell is then
//! small and packed like any other.

use crate::bytes::{
    from_le, get_le, le_bytes, lemma_from_le_bound, lemma_le_len, lemma_le_roundtrip,
    lemma_pow256_values, put_le,
};
use crate::decode::corrupt;
use crate::document::{depth_within, valid, DocId, DocModel, Document, MAX_NESTING};
use crate::encoding::{decode_document, decoded, encode_document, encoded, encoded_document_reads_back};
use crate::error::{ErrorKind, IoError, IoResult};
use crate::index::btree::free_pages;
use crate::storage::page::{
    cells_len, first_free, fits, lemma_cells_len_update, lemma_first_free, page_bytes, parse_page,
    page_reads_back, placed, slot_bytes, used, zeros, PageModel, PAGE_HEADER_LEN, SLOT_LEN,
};
use crate::storage::{PageId, PageStore, PageType, RecordLocation, SlottedPage, USABLE_PAGE_SIZE};
use crate::text::{decimal_text, join};
use vstd::prelude::*;
use vstd::slice::slice_subrange;

verus! {

/// Flags byte value for a document stored entirely inside its cell.
pub const INLINE: u8 = 0;

/// Flags byte value for a document too large for one page: the cell holds
/// only `[u32 length][u64 first overflow page]`, the encoded document lives
/// in a chain of overflow pages.
pub const OVERFLOW: u8 = 1;

/// `[u8 flags][16-byte DocId]`, common to both cell kinds.
pub const CELL_HEADER_LEN: usize = 17;

/// An overflow cell: the header plus `[u32 length][u64 first page]`.
pub const OVERFLOW_CELL_LEN: usize = 29;

// Overflow page layout, deliberately not a slotted page: it holds one run
// of bytes, and a slot directory would only cost space.
//   [0]      page type tag
//   [1..9)   next page (0 = last page of the chain)
//   [9..)    the next OVERFLOW_CAPACITY bytes of the encoded document; on
//            the last page, only the remainder, the rest zeroed
pub const OVERFLOW_HEADER_LEN: usize = 9;

pub const OVERFLOW_CAPACITY: usize = 8179;

/// What a data page's cell says.
#[verifier::ext_equal]
pub ghost enum CellModel {
    Inline { id: Seq<u8>, bytes: Seq<u8> },
    Overflow { id: Seq<u8>, len: nat, first: PageId },
}

/// The cell of a document that fits on a page.
pub open spec fn inline_cell(id: Seq<u8>, bytes: Seq<u8>) -> Seq<u8> {
    seq![INLINE] + id + bytes
}

/// The cell of a document in a chain.
pub open spec fn overflow_cell(id: Seq<u8>, len: nat, first: PageId) -> Seq<u8> {
    seq![OVERFLOW] + id + le_bytes(len, 4) + le_bytes(first as nat, 8)
}

/// What a cell says; `None` if it is damaged.
pub open spec fn parse_cell(cell: Seq<u8>) -> Option<CellModel> {
    if cell.len() < CELL_HEADER_LEN {
        None
    } else if cell[0] == INLINE {
        Some(CellModel::Inline { id: cell.subrange(1, 17), bytes: cell.skip(17) })
    } else if cell[0] == OVERFLOW && cell.len() >= OVERFLOW_CELL_LEN {
        Some(
            CellModel::Overflow {
                id: cell.subrange(1, 17),
                len: from_le(cell.subrange(17, 21)),
                first: from_le(cell.subrange(21, 29)) as u64,
            },
        )
    } else {
        None
    }
}

/// Whether a page is a data page.
pub open spec fn is_data_page(pages: Map<PageId, Seq<u8>>, id: PageId) -> bool {
    pages.dom().contains(id) && (parse_page(pages[id]) matches Some(m) && m.kind == PageType::Data)
}

/// The cell at a location, if there is one.
pub open spec fn data_slot(pages: Map<PageId, Seq<u8>>, loc: RecordLocation) -> Option<Seq<u8>> {
    if is_data_page(pages, loc.page) {
        let slots = parse_page(pages[loc.page])->Some_0.slots;
        if loc.slot < slots.len() {
            slots[loc.slot as int]
        } else {
            None
        }
    } else {
        None
    }
}

/// The link of an overflow page.
pub open spec fn overflow_next(bytes: Seq<u8>) -> PageId {
    from_le(bytes.subrange(1, 9)) as u64
}

/// Whether a page is an overflow page.
pub open spec fn is_overflow_page(pages: Map<PageId, Seq<u8>>, id: PageId) -> bool {
    pages.dom().contains(id) && pages[id].len() == USABLE_PAGE_SIZE && pages[id][0]
        == PageType::Overflow.code()
}

/// How many of the remaining bytes of a chain its next page holds.
pub open spec fn chain_take(remaining: nat) -> nat {
    if remaining < OVERFLOW_CAPACITY {
        remaining
    } else {
        OVERFLOW_CAPACITY as nat
    }
}

/// The pages and bytes of a chain that starts at `id` and has `remaining`
/// bytes. The length, not the links, decides where the chain ends. `None`
/// if the chain is broken: a page in it that isn't an overflow page, a link
/// past its end, or an end too early.
pub open spec fn chain_at(pages: Map<PageId, Seq<u8>>, id: PageId, remaining: nat) -> Option<
    (Seq<PageId>, Seq<u8>),
>
    decreases remaining,
{
    if !is_overflow_page(pages, id) {
        None
    } else {
        let n = chain_take(remaining);
        let bytes = pages[id].subrange(9, 9 + n as int);
        let next = overflow_next(pages[id]);
        if n == remaining {
            if next == 0 {
                Some((seq![id], bytes))
            } else {
                None
            }
        } else if next == 0 {
            None
        } else {
            match chain_at(pages, next, (remaining - n) as nat) {
                Some((ids, more)) => Some((seq![id] + ids, bytes + more)),
                None => None,
            }
        }
    }
}

/// The overflow pages of the record whose cell is `cell`.
pub open spec fn cell_chain(pages: Map<PageId, Seq<u8>>, cell: Seq<u8>) -> Option<Seq<PageId>> {
    match parse_cell(cell) {
        Some(CellModel::Inline { .. }) => Some(seq![]),
        Some(CellModel::Overflow { len, first, .. }) => match chain_at(pages, first, len) {
            Some((ids, _)) => Some(ids),
            None => None,
        },
        None => None,
    }
}

/// The overflow pages of the record at `loc`; `None` if there is no record
/// there that can be followed.
pub open spec fn record_chain(pages: Map<PageId, Seq<u8>>, loc: RecordLocation) -> Option<
    Seq<PageId>,
> {
    match data_slot(pages, loc) {
        Some(cell) => cell_chain(pages, cell),
        None => None,
    }
}

/// The id and encoded document that a cell stands for.
pub open spec fn cell_bytes(pages: Map<PageId, Seq<u8>>, cell: Seq<u8>) -> Option<
    (Seq<u8>, Seq<u8>),
> {
    match parse_cell(cell) {
        Some(CellModel::Inline { id, bytes }) => Some((id, bytes)),
        Some(CellModel::Overflow { id, len, first }) => match chain_at(pages, first, len) {
            Some((_, bytes)) => Some((id, bytes)),
            None => None,
        },
        None => None,
    }
}

/// The id and document that a cell stands for.
pub open spec fn cell_record(pages: Map<PageId, Seq<u8>>, cell: Seq<u8>) -> Option<
    (Seq<u8>, DocModel),
> {
    match cell_bytes(pages, cell) {
        Some((id, bytes)) => match decoded(bytes, MAX_NESTING as nat) {
            Some((doc, _)) => Some((id, doc)),
            None => None,
        },
        None => None,
    }
}

/// The id and document stored at `loc`; `None` if there is none that can be
/// read.
pub open spec fn record_at(pages: Map<PageId, Seq<u8>>, loc: RecordLocation) -> Option<
    (Seq<u8>, DocModel),
> {
    match data_slot(pages, loc) {
        Some(cell) => cell_record(pages, cell),
        None => None,
    }
}

/// Whether the record at `loc` is all on its data page.
pub open spec fn is_inline(pages: Map<PageId, Seq<u8>>, loc: RecordLocation) -> bool {
    data_slot(pages, loc) matches Some(cell) && (parse_cell(cell) matches Some(m) && m is Inline)
}

/// A document that can be stored: it can be decoded again from its bytes.
pub open spec fn storable(doc: DocModel) -> bool {
    valid(doc) && depth_within(doc, MAX_NESTING as int)
}

// ---------------------------------------------------------------------
// Chains.

/// What page `i` of a chain that holds `bytes` has.
pub open spec fn chunk(bytes: Seq<u8>, i: int) -> Seq<u8> {
    let start = i * OVERFLOW_CAPACITY;
    let end = if bytes.len() - start < OVERFLOW_CAPACITY {
        bytes.len() as int
    } else {
        start + OVERFLOW_CAPACITY
    };
    bytes.subrange(start, end)
}

/// An overflow page's bytes.
pub open spec fn overflow_page(next: PageId, held: Seq<u8>) -> Seq<u8> {
    seq![PageType::Overflow.code()] + le_bytes(next as nat, 8) + held + zeros(
        OVERFLOW_CAPACITY - held.len(),
    )
}

/// The link of page `i` of a chain.
pub open spec fn chain_next(ids: Seq<PageId>, i: int) -> PageId {
    if i + 1 < ids.len() {
        ids[i + 1]
    } else {
        0
    }
}

/// Whether every page of a chain holds its share of `bytes`.
pub open spec fn chain_written(pages: Map<PageId, Seq<u8>>, ids: Seq<PageId>, bytes: Seq<u8>) -> bool {
    forall|i: int|
        0 <= i < ids.len() ==> pages.dom().contains(ids[i]) && #[trigger] pages[ids[i]]
            == overflow_page(chain_next(ids, i), chunk(bytes, i))
}

proof fn lemma_overflow_page(next: PageId, held: Seq<u8>)
    requires
        held.len() <= OVERFLOW_CAPACITY,
    ensures
        overflow_page(next, held).len() == USABLE_PAGE_SIZE,
        overflow_page(next, held)[0] == PageType::Overflow.code(),
        overflow_next(overflow_page(next, held)) == next,
        overflow_page(next, held).subrange(9, 9 + held.len() as int) == held,
{
    let page = overflow_page(next, held);
    lemma_pow256_values();
    lemma_le_roundtrip(next as nat, 8);
    assert(page.subrange(1, 9) =~= le_bytes(next as nat, 8));
    assert(page.subrange(9, 9 + held.len() as int) =~= held);
}

/// A chain whose pages were written reads back.
proof fn lemma_chain_reads_back(
    pages: Map<PageId, Seq<u8>>,
    ids: Seq<PageId>,
    bytes: Seq<u8>,
    i: int,
)
    requires
        chain_written(pages, ids, bytes),
        0 <= i < ids.len(),
        forall|k: int| 0 <= k < ids.len() ==> #[trigger] ids[k] != 0,
        (ids.len() - 1) * OVERFLOW_CAPACITY < bytes.len() <= ids.len() * OVERFLOW_CAPACITY,
    ensures
        chain_at(pages, ids[i], (bytes.len() - i * OVERFLOW_CAPACITY) as nat) == Some(
            (ids.skip(i), bytes.skip(i * OVERFLOW_CAPACITY)),
        ),
    decreases ids.len() - i,
{
    let n = ids.len();
    let c = OVERFLOW_CAPACITY as int;
    let start = i * c;
    assert(start <= (n - 1) * c) by (nonlinear_arith)
        requires
            i <= n - 1,
            c >= 0,
            start == i * c,
    ;
    let remaining = (bytes.len() - start) as nat;
    let held = chunk(bytes, i);
    let next = chain_next(ids, i);
    assert(pages[ids[i]] == overflow_page(next, held));
    lemma_overflow_page(next, held);
    assert(held.len() == chain_take(remaining));
    if i == n - 1 {
        assert(remaining <= c) by (nonlinear_arith)
            requires
                bytes.len() <= n * c,
                i == n - 1,
                start == i * c,
                remaining == bytes.len() - start,
        ;
        assert(ids.skip(i) =~= seq![ids[i]]);
        assert(bytes.skip(start) =~= held);
    } else {
        assert((i + 1) * c == start + c) by (nonlinear_arith)
            requires
                start == i * c,
        ;
        assert((i + 1) * c <= (n - 1) * c) by (nonlinear_arith)
            requires
                i + 1 <= n - 1,
                c >= 0,
        ;
        assert(ids[i + 1] != 0);
        lemma_chain_reads_back(pages, ids, bytes, i + 1);
        assert(ids.skip(i) =~= seq![ids[i]] + ids.skip(i + 1));
        assert(bytes.skip(start) =~= held + bytes.skip(start + c));
    }
}

/// Pages that agree where a chain is hold the same chain.
pub proof fn lemma_chain_frame(
    before: Map<PageId, Seq<u8>>,
    after: Map<PageId, Seq<u8>>,
    id: PageId,
    remaining: nat,
)
    requires
        chain_at(before, id, remaining) matches Some((ids, _)) && forall|i: int|
            0 <= i < ids.len() ==> after.dom().contains(#[trigger] ids[i]) && after[ids[i]]
                == before[ids[i]],
    ensures
        chain_at(after, id, remaining) == chain_at(before, id, remaining),
    decreases remaining,
{
    let (ids, bytes) = chain_at(before, id, remaining)->Some_0;
    assert(ids[0] == id);
    let n = chain_take(remaining);
    if n != remaining {
        let next = overflow_next(before[id]);
        let (rest, _) = chain_at(before, next, (remaining - n) as nat)->Some_0;
        assert forall|i: int| 0 <= i < rest.len() implies after.dom().contains(#[trigger] rest[i])
            && after[rest[i]] == before[rest[i]] by {
            assert(ids[i + 1] == rest[i]);
        }
        lemma_chain_frame(before, after, next, (remaining - n) as nat);
    }
}

/// A chain's pages are overflow pages.
pub proof fn lemma_chain_pages(pages: Map<PageId, Seq<u8>>, id: PageId, remaining: nat, i: int)
    requires
        chain_at(pages, id, remaining) matches Some((ids, _)) && 0 <= i < ids.len(),
    ensures
        is_overflow_page(pages, chain_at(pages, id, remaining)->Some_0.0[i]),
    decreases remaining,
{
    let n = chain_take(remaining);
    if i > 0 {
        let next = overflow_next(pages[id]);
        lemma_chain_pages(pages, next, (remaining - n) as nat, i - 1);
    }
}

/// An overflow page is no data page.
pub proof fn lemma_overflow_is_not_data(pages: Map<PageId, Seq<u8>>, id: PageId)
    requires
        is_overflow_page(pages, id),
    ensures
        !is_data_page(pages, id),
{
}

/// Where a record that nothing touched is found again.
pub proof fn lemma_record_frame(
    before: Map<PageId, Seq<u8>>,
    after: Map<PageId, Seq<u8>>,
    loc: RecordLocation,
)
    requires
        record_chain(before, loc) matches Some(ids) && forall|i: int|
            0 <= i < ids.len() ==> after.dom().contains(#[trigger] ids[i]) && after[ids[i]]
                == before[ids[i]],
        data_slot(after, loc) == data_slot(before, loc),
    ensures
        record_at(after, loc) == record_at(before, loc),
        record_chain(after, loc) == record_chain(before, loc),
{
    let cell = data_slot(before, loc)->Some_0;
    match parse_cell(cell) {
        Some(CellModel::Overflow { id, len, first }) => {
            let ids = cell_chain(before, cell)->Some_0;
            assert(record_chain(before, loc) == Some(ids));
            assert(chain_at(before, first, len) is Some);
            assert(chain_at(before, first, len)->Some_0.0 == ids);
            lemma_chain_frame(before, after, first, len);
        },
        _ => {},
    }
}

/// The pages and bytes of a chain.
fn read_chain<S: PageStore>(store: &S, first: PageId, len: u32) -> (r: IoResult<
    (Vec<PageId>, Vec<u8>),
>)
    requires
        store.wf(),
    ensures
        match r {
            Ok((ids, bytes)) => chain_at(store.pages(), first, len as nat) == Some((ids@, bytes@)),
            Err(e) => !store.reliable() || (chain_at(store.pages(), first, len as nat) is None
                && e.kind == ErrorKind::InvalidData),
        },
{
    let ghost pages = store.pages();
    let ghost whole = chain_at(pages, first, len as nat);
    let mut ids: Vec<PageId> = Vec::new();
    let mut bytes: Vec<u8> = Vec::new();
    let mut page_id: PageId = first;
    let mut remaining: usize = len as usize;
    proof {
        if whole is Some {
            assert(ids@ + whole->Some_0.0 =~= whole->Some_0.0);
            assert(bytes@ + whole->Some_0.1 =~= whole->Some_0.1);
        }
    }
    loop
        invariant
            store.wf(),
            pages == store.pages(),
            whole == chain_at(pages, first, len as nat),
            whole == (match chain_at(pages, page_id, remaining as nat) {
                Some((more_ids, more)) => Some((ids@ + more_ids, bytes@ + more)),
                None => None,
            }),
        decreases remaining,
    {
        let buf = match store.read_page(page_id) {
            Ok(buf) => buf,
            Err(e) => return Err(e),
        };
        proof {
            store.lemma_pages();
        }
        if buf[0] != PageType::Overflow.to_code() {
            let number = decimal_text(page_id);
            return Err(broken_chain(first, join(&["page ", number.as_str(), " isn't an overflow page"])));
        }
        let next: PageId = get_le(slice_subrange(buf.as_slice(), 1, 9));
        let take: usize = if remaining < OVERFLOW_CAPACITY {
            remaining
        } else {
            OVERFLOW_CAPACITY
        };
        let held: &[u8] = slice_subrange(buf.as_slice(), 9, 9 + take);
        let ghost before_ids = ids@;
        let ghost before_bytes = bytes@;
        ids.push(page_id);
        bytes.extend_from_slice(held);
        assert(bytes@ =~= before_bytes + held@);
        assert(ids@ =~= before_ids + seq![page_id]);
        let left: usize = remaining - take;
        if left == 0 {
            if next == 0 {
                return Ok((ids, bytes));
            }
            let number = decimal_text(page_id);
            return Err(broken_chain(first, join(&["page ", number.as_str(), " links past its end"])));
        }
        if next == 0 {
            let number = decimal_text(left as u64);
            return Err(broken_chain(first, join(&["ends ", number.as_str(), " bytes early"])));
        }
        proof {
            match chain_at(pages, next, left as nat) {
                Some((more_ids, more)) => {
                    assert(before_ids + (seq![page_id] + more_ids) =~= ids@ + more_ids);
                    assert(before_bytes + (held@ + more) =~= bytes@ + more);
                },
                None => {},
            }
        }
        page_id = next;
        remaining = left;
    }
}

fn broken_chain(first: PageId, what: String) -> (e: IoError)
    ensures
        e.kind == ErrorKind::InvalidData,
{
    let number = decimal_text(first);
    corrupt(
        join(
            &["overflow chain starting at page ", number.as_str(), ": ", what.as_str()],
        ).as_str(),
    )
}

// ---------------------------------------------------------------------
// Writing.

/// Whether the pages `ids` were added, and nothing else changed.
pub open spec fn only_new(
    before: Map<PageId, Seq<u8>>,
    after: Map<PageId, Seq<u8>>,
    ids: Seq<PageId>,
) -> bool {
    &&& ids.no_duplicates()
    &&& forall|i: int| 0 <= i < ids.len() ==> !before.dom().contains(#[trigger] ids[i])
    &&& forall|p: PageId| #[trigger]
        after.dom().contains(p) <==> before.dom().contains(p) || ids.contains(p)
    &&& forall|p: PageId| #[trigger] before.dom().contains(p) ==> after[p] == before[p]
}

/// Whether the cells at all locations but `loc` are as they were.
pub open spec fn other_slots_same(
    before: Map<PageId, Seq<u8>>,
    after: Map<PageId, Seq<u8>>,
    loc: RecordLocation,
) -> bool {
    forall|other: RecordLocation|
        other != loc ==> #[trigger] data_slot(after, other) == data_slot(before, other)
}

/// Allocates `n` pages.
fn allocate_pages<S: PageStore>(store: &mut S, n: usize) -> (r: IoResult<Vec<PageId>>)
    requires
        old(store).wf(),
    ensures
        final(store).wf(),
        final(store).reliable() == old(store).reliable(),
        old(store).packed() && r is Ok ==> final(store).packed(),
        match r {
            Ok(ids) => ids@.len() == n && only_new(old(store).pages(), final(store).pages(), ids@)
                && forall|i: int| 0 <= i < n ==> #[trigger] ids@[i] != 0,
            Err(_) => !old(store).reliable() || final(store).full(),
        },
{
    let ghost before = store.pages();
    let mut ids: Vec<PageId> = Vec::new();
    for i in 0..n
        invariant
            store.wf(),
            store.reliable() == old(store).reliable(),
            old(store).packed() ==> store.packed(),
            before == old(store).pages(),
            ids@.len() == i,
            only_new(before, store.pages(), ids@),
            forall|k: int| 0 <= k < i ==> #[trigger] ids@[k] != 0,
    {
        let ghost pages = store.pages();
        let ghost had = ids@;
        let id: PageId = match store.allocate_page() {
            Ok(id) => id,
            Err(e) => return Err(e),
        };
        proof {
            store.lemma_pages();
            assert(store.pages().dom().contains(id));
            assert(id != 0);
        }
        ids.push(id);
        proof {
            assert(ids@ =~= had + seq![id]);
            assert forall|p: PageId| #[trigger] ids@.contains(p) <==> had.contains(p) || p == id by {
                crate::index::tree::lemma_contains_concat(had, seq![id], p);
                assert(seq![id][0] == id);
            }
            if had.contains(id) {
                assert(pages.dom().contains(id));
            }
            assert(ids@.no_duplicates()) by {
                assert forall|a: int, b: int|
                    0 <= a < ids@.len() && 0 <= b < ids@.len() && a != b implies ids@[a]
                    != ids@[b] by {
                    if a < had.len() && b < had.len() {
                        assert(had[a] != had[b]);
                    } else if a < had.len() {
                        assert(had.contains(had[a]));
                    } else if b < had.len() {
                        assert(had.contains(had[b]));
                    }
                }
            }
            assert forall|p: PageId| #[trigger]
                store.pages().dom().contains(p) <==> before.dom().contains(p) || ids@.contains(
                    p,
                ) by {
                assert(pages.dom().contains(p) <==> before.dom().contains(p) || had.contains(p));
            }
            assert forall|p: PageId| #[trigger] before.dom().contains(p) implies store.pages()[p]
                == before[p] by {
                assert(pages.dom().contains(p));
                assert(store.pages()[p] == pages[p]);
            }
            assert forall|k: int| 0 <= k < ids@.len() implies !before.dom().contains(
                #[trigger] ids@[k],
            ) && ids@[k] != 0 by {
                if k < had.len() {
                    assert(ids@[k] == had[k]);
                }
            }
        }
    }
    Ok(ids)
}

/// Writes `bytes` (never empty: an overflowing document is thousands of
/// bytes) to a chain of newly allocated overflow pages, returning the first
/// one. All pages are allocated before any is written, since each page
/// stores its successor's number.
fn write_chain<S: PageStore>(store: &mut S, bytes: &[u8]) -> (r: IoResult<
    (PageId, Ghost<Seq<PageId>>),
>)
    requires
        old(store).wf(),
        0 < bytes@.len() <= u32::MAX,
    ensures
        final(store).wf(),
        final(store).reliable() == old(store).reliable(),
        old(store).packed() && r is Ok ==> final(store).packed(),
        match r {
            Ok((first, ids)) => only_new(old(store).pages(), final(store).pages(), ids@) && chain_at(
                final(store).pages(),
                first,
                bytes@.len(),
            ) == Some((ids@, bytes@)),
            Err(_) => !old(store).reliable() || final(store).full(),
        },
{
    let ghost before = store.pages();
    let len: usize = bytes.len();
    let count: usize = (len - 1) / OVERFLOW_CAPACITY + 1;
    let ids = match allocate_pages(store, count) {
        Ok(ids) => ids,
        Err(e) => return Err(e),
    };
    let ghost allocated = store.pages();
    assert((count - 1) * OVERFLOW_CAPACITY < len <= count * OVERFLOW_CAPACITY) by (nonlinear_arith)
        requires
            count == (len - 1) / 8179 + 1,
            OVERFLOW_CAPACITY == 8179,
            len >= 1,
    ;
    for i in 0..count
        invariant
            store.wf(),
            store.reliable() == old(store).reliable(),
            old(store).packed() ==> store.packed(),
            before == old(store).pages(),
            len == bytes@.len(),
            count == ids@.len(),
            (count - 1) * OVERFLOW_CAPACITY < len <= count * OVERFLOW_CAPACITY,
            len <= u32::MAX,
            only_new(before, store.pages(), ids@),
            forall|k: int|
                0 <= k < i ==> #[trigger] store.pages()[ids@[k]] == overflow_page(
                    chain_next(ids@, k),
                    chunk(bytes@, k),
                ),
    {
        let ghost pages = store.pages();
        assert(0 <= i * OVERFLOW_CAPACITY <= (count - 1) * OVERFLOW_CAPACITY) by (nonlinear_arith)
            requires
                0 <= i < count,
        ;
        let start: usize = i * OVERFLOW_CAPACITY;
        let end: usize = if len - start < OVERFLOW_CAPACITY {
            len
        } else {
            start + OVERFLOW_CAPACITY
        };
        let held: &[u8] = slice_subrange(bytes, start, end);
        assert(held@ == chunk(bytes@, i as int));
        let next: PageId = if i + 1 < count {
            ids[i + 1]
        } else {
            0
        };
        let mut buf: Vec<u8> = Vec::new();
        buf.push(PageType::Overflow.to_code());
        put_le(&mut buf, next, 8);
        buf.extend_from_slice(held);
        let ghost content = buf@;
        proof {
            lemma_le_len(next as nat, 8);
        }
        buf.resize(USABLE_PAGE_SIZE, 0);
        proof {
            assert(buf@ =~= content + zeros(OVERFLOW_CAPACITY - held@.len()));
            assert(buf@ =~= overflow_page(next, held@));
            assert(ids@.contains(ids@[i as int]));
        }
        match store.write_page(ids[i], buf.as_slice()) {
            Ok(()) => {},
            Err(e) => return Err(e),
        }
        proof {
            assert forall|k: int| 0 <= k < i + 1 implies #[trigger] store.pages()[ids@[k]]
                == overflow_page(chain_next(ids@, k), chunk(bytes@, k)) by {
                if k < i {
                    assert(ids@[k] != ids@[i as int]);
                    assert(store.pages()[ids@[k]] == pages[ids@[k]]);
                }
            }
        }
    }
    proof {
        let pages = store.pages();
        assert(chain_written(pages, ids@, bytes@)) by {
            assert forall|i: int| 0 <= i < ids@.len() implies pages.dom().contains(ids@[i])
                && #[trigger] pages[ids@[i]] == overflow_page(
                chain_next(ids@, i),
                chunk(bytes@, i),
            ) by {
                assert(ids@.contains(ids@[i]));
            }
        }
        store.lemma_pages();
        assert forall|k: int| 0 <= k < ids@.len() implies #[trigger] ids@[k] != 0 by {
            assert(ids@.contains(ids@[k]));
        }
        lemma_chain_reads_back(pages, ids@, bytes@, 0);
        assert(ids@.skip(0) =~= ids@);
        assert(bytes@.skip(0) =~= bytes@);
    }
    Ok((ids[0], Ghost(ids@)))
}

fn too_large(len: usize) -> (e: IoError)
    ensures
        e.kind == ErrorKind::InvalidInput,
{
    let found = decimal_text(len as u64);
    let limit = decimal_text(u32::MAX as u64);
    let message = join(
        &[
            "document is ",
            found.as_str(),
            " bytes encoded, more than the ",
            limit.as_str(),
            " a document can have",
        ],
    );
    IoError::new(ErrorKind::InvalidInput, message)
}

proof fn lemma_inline_cell(pages: Map<PageId, Seq<u8>>, id: Seq<u8>, bytes: Seq<u8>)
    requires
        id.len() == 16,
    ensures
        cell_bytes(pages, inline_cell(id, bytes)) == Some((id, bytes)),
        cell_chain(pages, inline_cell(id, bytes)) == Some(Seq::<PageId>::empty()),
        inline_cell(id, bytes).len() == 17 + bytes.len(),
{
    let cell = inline_cell(id, bytes);
    assert(cell.subrange(1, 17) =~= id);
    assert(cell.skip(17) =~= bytes);
}

proof fn lemma_overflow_cell(
    pages: Map<PageId, Seq<u8>>,
    id: Seq<u8>,
    len: nat,
    first: PageId,
)
    requires
        id.len() == 16,
        len <= u32::MAX,
        chain_at(pages, first, len) is Some,
    ensures
        cell_bytes(pages, overflow_cell(id, len, first)) == Some(
            (id, chain_at(pages, first, len)->Some_0.1),
        ),
        cell_chain(pages, overflow_cell(id, len, first)) == Some(
            chain_at(pages, first, len)->Some_0.0,
        ),
        overflow_cell(id, len, first).len() == OVERFLOW_CELL_LEN,
{
    let cell = overflow_cell(id, len, first);
    lemma_pow256_values();
    lemma_le_roundtrip(len, 4);
    lemma_le_roundtrip(first as nat, 8);
    assert(cell.subrange(1, 17) =~= id);
    assert(cell.subrange(17, 21) =~= le_bytes(len, 4));
    assert(cell.subrange(21, 29) =~= le_bytes(first as nat, 8));
}

/// Whether a cell fits on an empty data page.
pub open spec fn fits_empty(len: nat) -> bool {
    PAGE_HEADER_LEN + SLOT_LEN + len <= USABLE_PAGE_SIZE
}

/// Encodes `doc` into the cell that will represent it: inline if that fits
/// on an empty data page, otherwise an overflow cell pointing at a newly
/// written chain. The choice depends on the size alone, so a document
/// switches kinds when an update moves it across the line.
fn write_cell<S: PageStore>(store: &mut S, id: DocId, doc: &Document) -> (r: IoResult<
    (Vec<u8>, Ghost<Seq<PageId>>),
>)
    requires
        old(store).wf(),
    ensures
        final(store).wf(),
        final(store).reliable() == old(store).reliable(),
        old(store).packed() && r is Ok ==> final(store).packed(),
        match r {
            Ok((cell, ids)) => {
                &&& only_new(old(store).pages(), final(store).pages(), ids@)
                &&& cell_bytes(final(store).pages(), cell@) == Some((id@, encoded(doc@)))
                &&& cell_chain(final(store).pages(), cell@) == Some(ids@)
                &&& fits_empty(cell@.len())
                &&& cell@.len() == cell_len(doc@)
                &&& encoded(doc@).len() <= u32::MAX
                &&& (fits_empty(17 + encoded(doc@).len()) ==> ids@.len() == 0 && cell@
                    == inline_cell(id@, encoded(doc@)))
                &&& (!fits_empty(17 + encoded(doc@).len()) ==> ids@.len() > 0)
            },
            Err(e) => if encoded(doc@).len() > u32::MAX {
                e.kind == ErrorKind::InvalidInput
            } else {
                !old(store).reliable() || final(store).full()
            },
        },
        encoded(doc@).len() > u32::MAX ==> r is Err,
{
    let encoded_doc = encode_document(doc);
    let empty = SlottedPage::new(PageType::Data);
    let n: usize = encoded_doc.len();
    let mut cell: Vec<u8> = Vec::new();
    if n <= USABLE_PAGE_SIZE && empty.has_room_for(CELL_HEADER_LEN + n) {
        cell.push(INLINE);
        cell.extend_from_slice(id.0.as_slice());
        cell.extend_from_slice(encoded_doc.as_slice());
        proof {
            assert(cell@ =~= inline_cell(id@, encoded(doc@)));
            lemma_inline_cell(store.pages(), id@, encoded(doc@));
            let none: Seq<PageId> = seq![];
            assert(none.no_duplicates());
        }
        return Ok((cell, Ghost(Seq::empty())));
    }
    if n > u32::MAX as usize {
        return Err(too_large(n));
    }
    let (first, ids) = match write_chain(store, encoded_doc.as_slice()) {
        Ok(written) => written,
        Err(e) => return Err(e),
    };
    cell.push(OVERFLOW);
    cell.extend_from_slice(id.0.as_slice());
    put_le(&mut cell, n as u64, 4);
    put_le(&mut cell, first, 8);
    proof {
        assert(cell@ =~= overflow_cell(id@, n as nat, first));
        lemma_overflow_cell(store.pages(), id@, n as nat, first);
        assert(ids@.len() > 0);
    }
    Ok((cell, ids))
}

/// An error about a page that should be a data page.
fn not_a_data_page(page_id: PageId) -> (e: IoError)
    ensures
        e.kind == ErrorKind::InvalidData,
{
    let number = decimal_text(page_id);
    corrupt(join(&["page ", number.as_str(), " was expected to be a data page"]).as_str())
}

/// Reads a data page.
pub fn read_data_page<S: PageStore>(store: &S, page_id: PageId) -> (r: IoResult<SlottedPage>)
    requires
        store.wf(),
    ensures
        match r {
            Ok(page) => page.wf() && is_data_page(store.pages(), page_id) && parse_page(
                store.pages()[page_id],
            ) == Some(page@),
            Err(e) => !store.reliable() || (!is_data_page(store.pages(), page_id) && e.kind
                == ErrorKind::InvalidData),
        },
{
    let bytes = match store.read_page(page_id) {
        Ok(bytes) => bytes,
        Err(e) => return Err(e),
    };
    let page = match SlottedPage::from_bytes(bytes) {
        Ok(page) => page,
        Err(e) => return Err(e),
    };
    match page.page_type() {
        PageType::Data => Ok(page),
        _ => Err(not_a_data_page(page_id)),
    }
}

/// Whether a cell of this length fits on a page, in a slot that is free or in a
/// new one.
pub open spec fn room_for(pages: Map<PageId, Seq<u8>>, page: PageId, len: nat) -> bool {
    let slots = parse_page(pages[page])->Some_0.slots;
    used(slots) + (if first_free(slots) < slots.len() {
        0
    } else {
        SLOT_LEN as int
    }) + len <= USABLE_PAGE_SIZE
}

/// A cell fits on a page if there is room for it.
proof fn lemma_room(slots: Seq<Option<Seq<u8>>>, cell: Seq<u8>)
    ensures
        fits(placed(slots, cell)) <==> used(slots) + (if first_free(slots) < slots.len() {
            0
        } else {
            SLOT_LEN as int
        }) + cell.len() <= USABLE_PAGE_SIZE,
{
    lemma_first_free(slots);
    let at = first_free(slots) as int;
    if at < slots.len() {
        lemma_cells_len_update(slots, at, Some(cell));
    } else {
        assert(slots.push(Some(cell)).drop_last() =~= slots);
    }
}

/// What placing a cell at `loc` does to the pages: `loc` was free, on the
/// current page if there is room, else on a new one, and no other cell changed.
pub open spec fn cell_placed(
    before: Map<PageId, Seq<u8>>,
    after: Map<PageId, Seq<u8>>,
    current: PageId,
    loc: RecordLocation,
    cell: Seq<u8>,
) -> bool {
    &&& data_slot(before, loc) is None
    &&& data_slot(after, loc) == Some(cell)
    &&& other_slots_same(before, after, loc)
    &&& (loc.page == current || !before.dom().contains(loc.page))
    &&& loc.page == current <==> current != 0 && room_for(before, current, cell.len())
    &&& forall|p: PageId| #[trigger]
        after.dom().contains(p) <==> before.dom().contains(p) || p == loc.page
    &&& forall|p: PageId| #[trigger]
        before.dom().contains(p) && p != loc.page ==> after[p] == before[p]
    &&& current != 0 ==> is_data_page(after, current)
}

/// Puts a new cell into the current page if it fits there, otherwise into a
/// newly allocated page, which becomes current.
fn place_cell<S: PageStore>(store: &mut S, current: &mut PageId, cell: &[u8]) -> (r: IoResult<
    RecordLocation,
>)
    requires
        old(store).wf(),
        fits_empty(cell@.len()),
    ensures
        final(store).wf(),
        final(store).reliable() == old(store).reliable(),
        old(store).packed() && r is Ok ==> final(store).packed(),
        *old(current) == 0 || is_data_page(old(store).pages(), *old(current)) ==> match r {
            Ok(loc) => cell_placed(
                old(store).pages(),
                final(store).pages(),
                *old(current),
                loc,
                cell@,
            ) && *final(current) == loc.page && loc.page != 0,
            Err(_) => !old(store).reliable() || final(store).full(),
        },
{
    let ghost before = store.pages();
    if *current != 0 {
        let mut page = match read_data_page(store, *current) {
            Ok(page) => page,
            Err(e) => return Err(e),
        };
        let ghost slots = page@.slots;
        proof {
            page.lemma_wf_fits();
        }
        match page.insert_cell_reusing_slot(cell) {
            Some(slot) => {
                let bytes = page.into_bytes();
                match store.write_page(*current, bytes.as_slice()) {
                    Ok(()) => {},
                    Err(e) => return Err(e),
                }
                let loc = RecordLocation { page: *current, slot };
                proof {
                    lemma_first_free(slots);
                    lemma_room(slots, cell@);
                    assert(store.pages().dom() =~= before.dom());
                    lemma_placed(before, store.pages(), *current, slots, loc, cell@);
                }
                return Ok(loc);
            },
            None => {
                proof {
                    lemma_room(slots, cell@);
                }
            },
        }
    }
    let page_id: PageId = match store.allocate_page() {
        Ok(id) => id,
        Err(e) => return Err(e),
    };
    let mut page = SlottedPage::new(PageType::Data);
    let ghost none = page@.slots;
    proof {
        let one = none.push(Some(cell@));
        assert(one.drop_last() =~= none);
        assert(cells_len(one) == cells_len(none) + cell@.len());
        store.lemma_pages();
    }
    let slot: u16 = match page.insert_cell(cell) {
        Some(slot) => slot,
        None => return Err(corrupt("a cell is longer than a page")),
    };
    let bytes = page.into_bytes();
    match store.write_page(page_id, bytes.as_slice()) {
        Ok(()) => {},
        Err(e) => return Err(e),
    }
    let loc = RecordLocation { page: page_id, slot };
    proof {
        let after = store.pages();
        assert forall|other: RecordLocation| other != loc implies #[trigger] data_slot(
            after,
            other,
        ) == data_slot(before, other) by {
            if other.page == page_id {
                assert(other.slot != 0);
            }
        }
    }
    *current = page_id;
    Ok(loc)
}

/// A cell placed on a page changes no other.
proof fn lemma_placed(
    before: Map<PageId, Seq<u8>>,
    after: Map<PageId, Seq<u8>>,
    current: PageId,
    slots: Seq<Option<Seq<u8>>>,
    loc: RecordLocation,
    cell: Seq<u8>,
)
    requires
        is_data_page(before, current),
        parse_page(before[current])->Some_0.slots == slots,
        fits(slots),
        loc == (RecordLocation { page: current, slot: first_free(slots) as u16 }),
        first_free(slots) <= u16::MAX,
        after.dom() == before.dom(),
        is_data_page(after, current),
        parse_page(after[current])->Some_0.slots == placed(slots, cell),
        fits(placed(slots, cell)),
        current != 0,
        forall|p: PageId| #[trigger]
            before.dom().contains(p) && p != current ==> after[p] == before[p],
    ensures
        cell_placed(before, after, current, loc, cell),
{
    lemma_first_free(slots);
    lemma_room(slots, cell);
    assert forall|other: RecordLocation| other != loc implies #[trigger] data_slot(after, other)
        == data_slot(before, other) by {
        if other.page == current {
            assert(other.slot != loc.slot);
        }
    }
}

/// Stores a new document, returning where it lives.
pub fn insert_record<S: PageStore>(
    store: &mut S,
    current: &mut PageId,
    id: DocId,
    doc: &Document,
) -> (r: IoResult<RecordLocation>)
    requires
        old(store).wf(),
    ensures
        final(store).wf(),
        final(store).reliable() == old(store).reliable(),
        old(store).packed() && r is Ok ==> final(store).packed(),
        *old(current) == 0 || is_data_page(old(store).pages(), *old(current)) ==> match r {
            Ok(loc) => {
                &&& record_stored(
                    old(store).pages(),
                    final(store).pages(),
                    *old(current),
                    loc,
                    id@,
                    doc@,
                )
                &&& *final(current) == loc.page
                &&& loc.page != 0
            },
            Err(e) => if encoded(doc@).len() > u32::MAX {
                e.kind == ErrorKind::InvalidInput
            } else {
                !old(store).reliable() || final(store).full()
            },
        },
        encoded(doc@).len() > u32::MAX ==> r is Err,
{
    let ghost before = store.pages();
    let ghost start = *current;
    let (cell, ids) = match write_cell(store, id, doc) {
        Ok(written) => written,
        Err(e) => return Err(e),
    };
    let ghost middle = store.pages();
    proof {
        store.lemma_pages();
        if start != 0 && is_data_page(before, start) {
            assert(is_data_page(middle, start));
        }
    }
    match place_cell(store, current, cell.as_slice()) {
        Ok(loc) => {
            proof {
                if start == 0 || is_data_page(before, start) {
                    assert(!middle.dom().contains(0));
                    lemma_record_stored(
                        before,
                        middle,
                        store.pages(),
                        start,
                        loc,
                        cell@,
                        ids@,
                        id@,
                        doc@,
                    );
                }
            }
            Ok(loc)
        },
        Err(e) => Err(e),
    }
}

/// What storing a document at `loc` does to the pages: the record is there, on
/// the current page if that has room for it and else on a new one, its chain on
/// new pages, no other cell changed, and no other page.
pub open spec fn record_stored(
    before: Map<PageId, Seq<u8>>,
    after: Map<PageId, Seq<u8>>,
    current: PageId,
    loc: RecordLocation,
    id: Seq<u8>,
    doc: DocModel,
) -> bool {
    &&& data_slot(before, loc) is None
    &&& data_slot(after, loc) matches Some(cell) && cell_bytes(after, cell) == Some(
        (id, encoded(doc)),
    )
    &&& storable(doc) ==> record_at(after, loc) == Some((id, doc))
    &&& other_slots_same(before, after, loc)
    &&& (loc.page == current || !before.dom().contains(loc.page))
    &&& loc.page == current <==> current != 0 && room_for(before, current, cell_len(doc))
    &&& record_chain(after, loc) matches Some(ids) && ids.no_duplicates() && !ids.contains(
        loc.page,
    ) && (forall|p: PageId| #[trigger] ids.contains(p) ==> !before.dom().contains(p)) && (forall|
        p: PageId,
    | #[trigger]
        after.dom().contains(p) <==> before.dom().contains(p) || p == loc.page || ids.contains(p))
    &&& forall|p: PageId| #[trigger]
        before.dom().contains(p) && p != loc.page ==> after[p] == before[p]
    &&& current != 0 ==> is_data_page(after, current)
}

proof fn lemma_record_stored(
    before: Map<PageId, Seq<u8>>,
    middle: Map<PageId, Seq<u8>>,
    after: Map<PageId, Seq<u8>>,
    current: PageId,
    loc: RecordLocation,
    cell: Seq<u8>,
    ids: Seq<PageId>,
    id: Seq<u8>,
    doc: DocModel,
)
    requires
        only_new(before, middle, ids),
        cell_bytes(middle, cell) == Some((id, encoded(doc))),
        cell_chain(middle, cell) == Some(ids),
        encoded(doc).len() <= u32::MAX,
        cell_placed(middle, after, current, loc, cell),
        cell.len() == cell_len(doc),
        current == 0 || is_data_page(before, current),
        !middle.dom().contains(0),
    ensures
        record_stored(before, after, current, loc, id, doc),
{
    // The chain's pages are overflow pages, so none is a data page.
    assert forall|i: int| 0 <= i < ids.len() implies is_overflow_page(middle, #[trigger] ids[i]) by {
        match parse_cell(cell) {
            Some(CellModel::Overflow { len, first, .. }) => {
                assert(chain_at(middle, first, len) is Some);
                lemma_chain_pages(middle, first, len, i);
            },
            _ => {},
        }
    }
    assert forall|p: PageId| #[trigger] ids.contains(p) implies !is_data_page(middle, p) && p
        != current && p != loc.page by {
        let i = choose|i: int| 0 <= i < ids.len() && ids[i] == p;
        lemma_overflow_is_not_data(middle, ids[i]);
        assert(middle.dom().contains(p));
        if current != 0 {
            assert(is_data_page(middle, current));
        }
        if p == loc.page && loc.page != current {
            assert(!middle.dom().contains(loc.page));
        }
        assert(!before.dom().contains(ids[i]));
    }
    // The chain stands as written.
    match parse_cell(cell) {
        Some(CellModel::Overflow { len, first, .. }) => {
            assert(chain_at(middle, first, len) is Some);
            assert(chain_at(middle, first, len)->Some_0.0 == ids);
            assert forall|i: int| 0 <= i < ids.len() implies after.dom().contains(
                #[trigger] ids[i],
            ) && after[ids[i]] == middle[ids[i]] by {
                assert(ids.contains(ids[i]));
            }
            lemma_chain_frame(middle, after, first, len);
        },
        _ => {},
    }
    assert forall|other: RecordLocation| other != loc implies #[trigger] data_slot(after, other)
        == data_slot(before, other) by {
        assert(data_slot(after, other) == data_slot(middle, other));
        if before.dom().contains(other.page) {
            assert(middle[other.page] == before[other.page]);
        } else if ids.contains(other.page) {
            assert(!is_data_page(middle, other.page));
        }
    }
    if storable(doc) {
        encoded_document_reads_back(doc, MAX_NESTING as nat, seq![]);
        assert(encoded(doc) + Seq::<u8>::empty() =~= encoded(doc));
    }
    if before.dom().contains(loc.page) {
        assert(middle.dom().contains(loc.page));
    }
    assert(data_slot(before, loc) is None) by {
        if before.dom().contains(loc.page) {
            assert(middle[loc.page] == before[loc.page]);
        }
    }
    assert(record_chain(after, loc) == Some(ids));
    assert forall|p: PageId| #[trigger] before.dom().contains(p) && p != loc.page implies after[p]
        == before[p] by {
        assert(middle.dom().contains(p));
    }
}

// ---------------------------------------------------------------------
// Reading.

/// What a cell holds: the document itself, or where its chain starts.
enum Cell<'a> {
    Inline(DocId, &'a [u8]),
    Overflow { id: DocId, len: u32, first: PageId },
}

impl<'a> Cell<'a> {
    spec fn means(&self, cell: CellModel) -> bool {
        match self {
            Cell::Inline(id, bytes) => cell == (CellModel::Inline { id: id@, bytes: bytes@ }),
            Cell::Overflow { id, len, first } => cell == (CellModel::Overflow {
                id: id@,
                len: *len as nat,
                first: *first,
            }),
        }
    }

    fn parse(bytes: &'a [u8]) -> (r: IoResult<Cell<'a>>)
        ensures
            match r {
                Ok(cell) => parse_cell(bytes@) matches Some(m) && cell.means(m),
                Err(e) => parse_cell(bytes@) is None && e.kind == ErrorKind::InvalidData,
            },
    {
        if bytes.len() < CELL_HEADER_LEN {
            return Err(corrupt("record cell is too short"));
        }
        let id = DocId::from_slice(slice_subrange(bytes, 1, 17));
        if bytes[0] == INLINE {
            let rest: &[u8] = slice_subrange(bytes, 17, bytes.len());
            assert(rest@ =~= bytes@.skip(17));
            return Ok(Cell::Inline(id, rest));
        }
        if bytes[0] == OVERFLOW {
            if bytes.len() < OVERFLOW_CELL_LEN {
                return Err(corrupt("record cell is too short"));
            }
            proof {
                lemma_pow256_values();
                lemma_from_le_bound(bytes@.subrange(17, 21));
                lemma_from_le_bound(bytes@.subrange(21, 29));
            }
            let len: u64 = get_le(slice_subrange(bytes, 17, 21));
            let first: PageId = get_le(slice_subrange(bytes, 21, 29));
            return Ok(Cell::Overflow { id, len: len as u32, first });
        }
        let flags = decimal_text(bytes[0] as u64);
        Err(corrupt(join(&["unknown record flags ", flags.as_str()]).as_str()))
    }
}

/// The cell at a slot of a page.
fn live_cell(page: &SlottedPage, loc: RecordLocation) -> (r: IoResult<&[u8]>)
    ensures
        match r {
            Ok(cell) => loc.slot < page@.slots.len() && page@.slots[loc.slot as int] == Some(cell@),
            Err(e) => (loc.slot >= page@.slots.len() || page@.slots[loc.slot as int] is None)
                && e.kind == ErrorKind::InvalidData,
        },
{
    match page.get_cell(loc.slot) {
        Some(cell) => Ok(cell),
        None => {
            let slot = decimal_text(loc.slot as u64);
            let number = decimal_text(loc.page);
            Err(
                corrupt(
                    join(
                        &["no live cell at slot ", slot.as_str(), " on page ", number.as_str()],
                    ).as_str(),
                ),
            )
        },
    }
}

/// Reads documents one after another, keeping the last data page it read: a
/// scan's next document is usually on the same page.
pub struct Records<'a, S: PageStore> {
    store: &'a S,
    page: Option<(PageId, SlottedPage)>,
}

impl<'a, S: PageStore> Records<'a, S> {
    /// What the store holds that is read from.
    pub closed spec fn pages(&self) -> Map<PageId, Seq<u8>> {
        self.store.pages()
    }

    pub closed spec fn reliable(&self) -> bool {
        self.store.reliable()
    }

    /// The page that is kept.
    pub closed spec fn kept(&self) -> Option<PageId> {
        match self.page {
            Some((id, _)) => Some(id),
            None => None,
        }
    }

    /// The page kept, if any, is as the store has it.
    pub closed spec fn wf(&self) -> bool {
        &&& self.store.wf()
        &&& self.page matches Some((id, page)) ==> page.wf() && is_data_page(
            self.store.pages(),
            id,
        ) && parse_page(self.store.pages()[id]) == Some(page@)
    }

    pub fn new(store: &'a S) -> (records: Records<'a, S>)
        requires
            store.wf(),
        ensures
            records.wf(),
            records.pages() == store.pages(),
            records.reliable() == store.reliable(),
            records.kept() is None,
    {
        Records { store, page: None }
    }

    /// The document at `loc`, and its id. Its page is kept; where it was kept
    /// already, it isn't read again, so that a store which fails is no matter.
    pub fn get(&mut self, loc: RecordLocation) -> (r: IoResult<(DocId, Document)>)
        requires
            old(self).wf(),
        ensures
            final(self).wf(),
            final(self).pages() == old(self).pages(),
            final(self).reliable() == old(self).reliable(),
            r is Ok ==> final(self).kept() == Some(loc.page),
            old(self).kept() == Some(loc.page) ==> final(self).kept() == Some(loc.page) && (
            is_inline(old(self).pages(), loc) && record_at(old(self).pages(), loc) is Some
                ==> r is Ok),
            match r {
                Ok((id, doc)) => record_at(old(self).pages(), loc) == Some((id@, doc@)),
                Err(e) => !old(self).reliable() || (record_at(old(self).pages(), loc) is None
                    && e.kind == ErrorKind::InvalidData),
            },
    {
        let kept: bool = match &self.page {
            Some((id, _)) => *id == loc.page,
            None => false,
        };
        if !kept {
            let page = match read_data_page(self.store, loc.page) {
                Ok(page) => page,
                Err(e) => return Err(e),
            };
            self.page = Some((loc.page, page));
        }
        let page: &SlottedPage = match &self.page {
            Some((_, page)) => page,
            None => return Err(not_a_data_page(loc.page)),
        };
        let cell: &[u8] = match live_cell(page, loc) {
            Ok(cell) => cell,
            Err(e) => return Err(e),
        };
        assert(data_slot(self.pages(), loc) == Some(cell@));
        match Cell::parse(cell) {
            Ok(Cell::Inline(id, bytes)) => match decode_document(bytes) {
                Ok((doc, _)) => Ok((id, doc)),
                Err(e) => Err(e),
            },
            Ok(Cell::Overflow { id, len, first }) => match read_chain(self.store, first, len) {
                Ok((_, bytes)) => match decode_document(bytes.as_slice()) {
                    Ok((doc, _)) => Ok((id, doc)),
                    Err(e) => Err(e),
                },
                Err(e) => Err(e),
            },
            Err(e) => Err(e),
        }
    }
}

/// The document at `loc`, and its id.
pub fn get_record<S: PageStore>(store: &S, loc: RecordLocation) -> (r: IoResult<(DocId, Document)>)
    requires
        store.wf(),
    ensures
        match r {
            Ok((id, doc)) => record_at(store.pages(), loc) == Some((id@, doc@)),
            Err(e) => !store.reliable() || (record_at(store.pages(), loc) is None && e.kind
                == ErrorKind::InvalidData),
        },
{
    let mut records = Records::new(store);
    records.get(loc)
}

/// The overflow pages of the record whose cell this is.
fn chain_of<S: PageStore>(store: &S, bytes: &[u8]) -> (r: IoResult<Vec<PageId>>)
    requires
        store.wf(),
    ensures
        match r {
            Ok(ids) => cell_chain(store.pages(), bytes@) == Some(ids@),
            Err(e) => !store.reliable() || (cell_chain(store.pages(), bytes@) is None && e.kind
                == ErrorKind::InvalidData),
        },
{
    match Cell::parse(bytes) {
        Ok(Cell::Inline(_, _)) => Ok(Vec::new()),
        Ok(Cell::Overflow { len, first, .. }) => match read_chain(store, first, len) {
            Ok((ids, _)) => Ok(ids),
            Err(e) => Err(e),
        },
        Err(e) => Err(e),
    }
}

/// Where the links of a chain's page lead.
proof fn lemma_chain_links(pages: Map<PageId, Seq<u8>>, id: PageId, remaining: nat, i: int)
    requires
        chain_at(pages, id, remaining) matches Some((ids, _)) && 0 <= i < ids.len(),
    ensures
        ({
            let ids = chain_at(pages, id, remaining)->Some_0.0;
            overflow_next(pages[ids[i]]) == (if i + 1 < ids.len() {
                ids[i + 1]
            } else {
                0
            }) && (i + 1 < ids.len() ==> ids[i + 1] != 0)
        }),
    decreases remaining,
{
    let n = chain_take(remaining);
    let ids = chain_at(pages, id, remaining)->Some_0.0;
    let next = overflow_next(pages[id]);
    if n != remaining {
        let rest = chain_at(pages, next, (remaining - n) as nat)->Some_0.0;
        assert(rest[0] == next);
        if i > 0 {
            lemma_chain_links(pages, next, (remaining - n) as nat, i - 1);
            assert(ids[i] == rest[i - 1]);
            if i + 1 < ids.len() {
                assert(ids[i + 1] == rest[i]);
            }
        } else {
            assert(ids[1] == rest[0]);
        }
    }
}

/// Two places of a chain with the same page go on alike.
proof fn lemma_chain_repeats(
    pages: Map<PageId, Seq<u8>>,
    id: PageId,
    remaining: nat,
    i: int,
    j: int,
    k: int,
)
    requires
        chain_at(pages, id, remaining) matches Some((ids, _)) && 0 <= i < j && 0 <= k && j + k
            < ids.len() && ids[i] == ids[j],
    ensures
        chain_at(pages, id, remaining)->Some_0.0[i + k] == chain_at(
            pages,
            id,
            remaining,
        )->Some_0.0[j + k],
    decreases k,
{
    if k > 0 {
        lemma_chain_repeats(pages, id, remaining, i, j, k - 1);
        lemma_chain_links(pages, id, remaining, i + k - 1);
        lemma_chain_links(pages, id, remaining, j + k - 1);
    }
}

/// No page is twice in a chain.
pub proof fn lemma_chain_distinct(pages: Map<PageId, Seq<u8>>, id: PageId, remaining: nat)
    requires
        chain_at(pages, id, remaining) is Some,
    ensures
        chain_at(pages, id, remaining)->Some_0.0.no_duplicates(),
{
    let ids = chain_at(pages, id, remaining)->Some_0.0;
    assert forall|i: int, j: int| 0 <= i < j < ids.len() implies ids[i] != ids[j] by {
        if ids[i] == ids[j] {
            let k = ids.len() - 1 - j;
            lemma_chain_repeats(pages, id, remaining, i, j, k);
            lemma_chain_links(pages, id, remaining, i + k);
            lemma_chain_links(pages, id, remaining, j + k);
        }
    }
}

/// A record's overflow pages are distinct overflow pages of the store.
pub proof fn lemma_record_chain(pages: Map<PageId, Seq<u8>>, loc: RecordLocation)
    requires
        record_chain(pages, loc) is Some,
    ensures
        ({
            let ids = record_chain(pages, loc)->Some_0;
            &&& ids.no_duplicates()
            &&& forall|i: int|
                0 <= i < ids.len() ==> is_overflow_page(pages, #[trigger] ids[i]) && !is_data_page(
                    pages,
                    ids[i],
                )
            &&& !ids.contains(loc.page)
        }),
{
    let cell = data_slot(pages, loc)->Some_0;
    let ids = record_chain(pages, loc)->Some_0;
    match parse_cell(cell) {
        Some(CellModel::Overflow { id, len, first }) => {
            assert(chain_at(pages, first, len) is Some);
            lemma_chain_distinct(pages, first, len);
            assert forall|i: int| 0 <= i < ids.len() implies is_overflow_page(
                pages,
                #[trigger] ids[i],
            ) && !is_data_page(pages, ids[i]) by {
                lemma_chain_pages(pages, first, len, i);
                lemma_overflow_is_not_data(pages, ids[i]);
            }
        },
        _ => {
            assert(ids =~= seq![]);
        },
    }
    if ids.contains(loc.page) {
        let i = choose|i: int| 0 <= i < ids.len() && ids[i] == loc.page;
        assert(!is_data_page(pages, ids[i]));
    }
}

// ---------------------------------------------------------------------
// Changing and deleting.

/// Whether the page of `loc` goes when the record there does: nothing else
/// is on it, and the next insert doesn't go there.
pub open spec fn page_empties(
    pages: Map<PageId, Seq<u8>>,
    current: PageId,
    loc: RecordLocation,
) -> bool {
    loc.page != current && forall|other: RecordLocation|
        other.page == loc.page && other != loc ==> (#[trigger] data_slot(pages, other)) is None
}

/// What deleting the record at `loc` does to the pages: its cell and chain
/// are gone, its page too if that empties, and everything else stands.
pub open spec fn record_deleted(
    before: Map<PageId, Seq<u8>>,
    after: Map<PageId, Seq<u8>>,
    current: PageId,
    loc: RecordLocation,
) -> bool {
    &&& data_slot(after, loc) is None
    &&& other_slots_same(before, after, loc)
    &&& forall|p: PageId| #[trigger]
        after.dom().contains(p) <==> before.dom().contains(p) && !record_chain(
            before,
            loc,
        )->Some_0.contains(p) && !(p == loc.page && page_empties(before, current, loc))
    &&& forall|p: PageId| #[trigger]
        after.dom().contains(p) && p != loc.page ==> after[p] == before[p]
    &&& after.dom().contains(loc.page) ==> is_data_page(after, loc.page)
}

/// Writes a page back, or frees it if it's empty and not the current one.
fn write_or_free<S: PageStore>(
    store: &mut S,
    current: PageId,
    page_id: PageId,
    page: SlottedPage,
) -> (r: IoResult<()>)
    requires
        old(store).wf(),
        page.wf(),
        page@.kind == PageType::Data,
    ensures
        final(store).wf(),
        final(store).reliable() == old(store).reliable(),
        match r {
            Ok(()) => old(store).pages().dom().contains(page_id) && final(store).pages() == (if page_id
                != current && (forall|i: int|
                0 <= i < page@.slots.len() ==> (#[trigger] page@.slots[i]) is None) {
                old(store).pages().remove(page_id)
            } else {
                old(store).pages().insert(page_id, page_bytes(page@))
            }) && parse_page(page_bytes(page@)) == Some(page@),
            Err(_) => !old(store).reliable() || !old(store).pages().dom().contains(page_id),
        },
{
    if page.is_empty() && page_id != current {
        proof {
            page.lemma_wf_fits();
            page_reads_back(page@);
        }
        store.free_page(page_id)
    } else {
        let bytes = page.into_bytes();
        store.write_page(page_id, bytes.as_slice())
    }
}

/// Taking a record out: what its page and chain become.
proof fn lemma_record_deleted(
    before: Map<PageId, Seq<u8>>,
    middle: Map<PageId, Seq<u8>>,
    after: Map<PageId, Seq<u8>>,
    current: PageId,
    loc: RecordLocation,
    m: PageModel,
    page: PageModel,
)
    requires
        record_chain(before, loc) is Some,
        middle == before.remove_keys(record_chain(before, loc)->Some_0.to_set()),
        is_data_page(before, loc.page),
        parse_page(before[loc.page]) == Some(m),
        page == (PageModel { slots: m.slots.update(loc.slot as int, None), ..m }),
        after == (if loc.page != current && (forall|i: int|
            0 <= i < page.slots.len() ==> (#[trigger] page.slots[i]) is None) {
            middle.remove(loc.page)
        } else {
            middle.insert(loc.page, page_bytes(page))
        }),
        parse_page(page_bytes(page)) == Some(page),
    ensures
        record_deleted(before, after, current, loc),
{
    let ids = record_chain(before, loc)->Some_0;
    lemma_record_chain(before, loc);
    let gone = ids.to_set();
    assert forall|p: PageId| #[trigger] gone.contains(p) <==> ids.contains(p) by {}
    let bare = loc.page != current && (forall|i: int|
        0 <= i < page.slots.len() ==> (#[trigger] page.slots[i]) is None);
    assert(bare == page_empties(before, current, loc)) by {
        if bare {
            assert forall|other: RecordLocation| other.page == loc.page && other != loc implies (
            #[trigger] data_slot(before, other)) is None by {
                if other.slot < m.slots.len() {
                    assert(page.slots[other.slot as int] is None);
                    assert(other.slot != loc.slot);
                }
            }
        } else if loc.page != current {
            let i = choose|i: int|
                0 <= i < page.slots.len() && (#[trigger] page.slots[i]) is Some;
            assert(i != loc.slot);
            assert(m.slots.len() <= u16::MAX);
            let other = RecordLocation { page: loc.page, slot: i as u16 };
            assert(data_slot(before, other) is Some);
        }
    }
    assert forall|other: RecordLocation| other != loc implies #[trigger] data_slot(after, other)
        == data_slot(before, other) by {
        if other.page == loc.page {
            if bare {
                assert(page_empties(before, current, loc));
            }
        } else if ids.contains(other.page) {
            let i = choose|i: int| 0 <= i < ids.len() && ids[i] == other.page;
            assert(!is_data_page(before, ids[i]));
        }
    }
}

/// Tombstones the document's cell and frees its overflow chain, if any. A
/// page left with no documents is freed, unless it's the collection's
/// current page, which the next insert is about to use anyway.
pub fn delete_record<S: PageStore>(store: &mut S, current: PageId, loc: RecordLocation) -> (r:
    IoResult<()>)
    requires
        old(store).wf(),
    ensures
        final(store).wf(),
        final(store).reliable() == old(store).reliable(),
        match r {
            Ok(()) => record_chain(old(store).pages(), loc) is Some && record_deleted(
                old(store).pages(),
                final(store).pages(),
                current,
                loc,
            ),
            Err(e) => !old(store).reliable() || (record_chain(old(store).pages(), loc) is None
                && e.kind == ErrorKind::InvalidData),
        },
        record_chain(old(store).pages(), loc) is None ==> final(store).pages() == old(store).pages(),
{
    let ghost before = store.pages();
    let mut page = match read_data_page(store, loc.page) {
        Ok(page) => page,
        Err(e) => return Err(e),
    };
    let ghost m = page@;
    let chain = match live_cell(&page, loc) {
        Ok(cell) => match chain_of(store, cell) {
            Ok(chain) => chain,
            Err(e) => return Err(e),
        },
        Err(e) => return Err(e),
    };
    proof {
        assert(record_chain(before, loc) == Some(chain@));
        lemma_record_chain(before, loc);
    }
    match free_pages(store, &chain) {
        Ok(()) => {},
        Err(e) => return Err(e),
    }
    let ghost middle = store.pages();
    page.delete_cell(loc.slot);
    assert(middle.dom().contains(loc.page));
    match write_or_free(store, current, loc.page, page) {
        Ok(()) => {
            proof {
                lemma_record_deleted(before, middle, store.pages(), current, loc, m, page@);
            }
            Ok(())
        },
        Err(e) => Err(e),
    }
}

/// How long the cell of a document is.
pub open spec fn cell_len(doc: DocModel) -> nat {
    let len = 17 + encoded(doc).len();
    if fits_empty(len) {
        len
    } else {
        OVERFLOW_CELL_LEN as nat
    }
}

/// Whether a document put in place of the one at `loc` still fits on its
/// page.
pub open spec fn stays(pages: Map<PageId, Seq<u8>>, loc: RecordLocation, doc: DocModel) -> bool {
    let slots = parse_page(pages[loc.page])->Some_0.slots;
    used(slots) - slot_bytes(slots[loc.slot as int]) + cell_len(doc) <= USABLE_PAGE_SIZE
}

/// What replacing the record at `loc` does to the pages: the new one is at
/// `now`, which is `loc` unless the page of `loc` is too small for it, and
/// then on the current page if that has room or one that nothing used any more; the old chain
/// is gone, the new one on pages that were not used otherwise;
/// every other record stands.
pub open spec fn record_replaced(
    before: Map<PageId, Seq<u8>>,
    after: Map<PageId, Seq<u8>>,
    current: PageId,
    loc: RecordLocation,
    now: RecordLocation,
    id: Seq<u8>,
    doc: DocModel,
) -> bool {
    let old_ids = record_chain(before, loc)->Some_0;
    &&& data_slot(after, now) matches Some(cell) && cell_bytes(after, cell) == Some(
        (id, encoded(doc)),
    )
    &&& storable(doc) ==> record_at(after, now) == Some((id, doc))
    &&& now != loc ==> data_slot(before, now) is None && data_slot(after, loc) is None
    &&& stays(before, loc, doc) ==> now == loc
    &&& forall|other: RecordLocation|
        other != loc && other != now ==> #[trigger] data_slot(after, other) == data_slot(
            before,
            other,
        )
    &&& now.page == loc.page || now.page == current || !before.dom().contains(now.page)
        || old_ids.contains(now.page)
    &&& !stays(before, loc, doc) ==> now.page == current || !before.dom().contains(now.page)
        || old_ids.contains(now.page) || (now.page == loc.page && page_empties(
        before,
        current,
        loc,
    ))
    &&& !stays(before, loc, doc) && current != loc.page ==> (now.page == current <==> current != 0
        && room_for(before, current, cell_len(doc)))
    &&& record_chain(after, now) matches Some(ids) && ids.no_duplicates() && !ids.contains(
        now.page,
    ) && (forall|p: PageId| #[trigger]
        ids.contains(p) ==> !before.dom().contains(p) || old_ids.contains(p)) && (forall|
        p: PageId,
    | #[trigger]
        after.dom().contains(p) <==> ids.contains(p) || p == now.page || (before.dom().contains(p)
            && !old_ids.contains(p) && !(p == loc.page && !stays(before, loc, doc) && page_empties(
            before,
            current,
            loc,
        ))))
    &&& forall|p: PageId| #[trigger]
        before.dom().contains(p) && p != current && p != loc.page && !old_ids.contains(p)
            ==> after[p] == before[p]
    &&& current != 0 && is_data_page(before, current) ==> is_data_page(after, current)
}

/// The new document fits where the old one was.
proof fn lemma_replaced_in_place(
    before: Map<PageId, Seq<u8>>,
    middle: Map<PageId, Seq<u8>>,
    after: Map<PageId, Seq<u8>>,
    current: PageId,
    loc: RecordLocation,
    m: PageModel,
    page: PageModel,
    cell: Seq<u8>,
    ids: Seq<PageId>,
    id: Seq<u8>,
    doc: DocModel,
)
    requires
        record_chain(before, loc) is Some,
        only_new(before.remove_keys(record_chain(before, loc)->Some_0.to_set()), middle, ids),
        cell_bytes(middle, cell) == Some((id, encoded(doc))),
        cell_chain(middle, cell) == Some(ids),
        is_data_page(before, loc.page),
        parse_page(before[loc.page]) == Some(m),
        page == (PageModel { slots: m.slots.update(loc.slot as int, Some(cell)), ..m }),
        after == middle.insert(loc.page, page_bytes(page)),
        parse_page(page_bytes(page)) == Some(page),
        stays(before, loc, doc),
        encoded(doc).len() <= u32::MAX,
        current == 0 || is_data_page(before, current),
    ensures
        record_replaced(before, after, current, loc, loc, id, doc),
{
    let old_ids = record_chain(before, loc)->Some_0;
    let freed = before.remove_keys(old_ids.to_set());
    lemma_record_chain(before, loc);
    assert forall|p: PageId| #[trigger] old_ids.to_set().contains(p) <==> old_ids.contains(p) by {}
    assert(freed.dom().contains(loc.page));
    lemma_cell_chain_pages(middle, cell);
    assert forall|p: PageId| #[trigger] ids.contains(p) implies !is_data_page(middle, p) && p
        != loc.page by {
        let i = choose|i: int| 0 <= i < ids.len() && ids[i] == p;
        assert(!freed.dom().contains(ids[i]));
    }
    lemma_cell_frame(middle, after, cell);
    assert(data_slot(after, loc) == Some(cell));
    assert(record_chain(after, loc) == Some(ids));
    assert forall|other: RecordLocation| other != loc implies #[trigger] data_slot(after, other)
        == data_slot(before, other) by {
        if other.page == loc.page {
            assert(other.slot != loc.slot);
        } else if ids.contains(other.page) {
            assert(!is_data_page(middle, other.page));
            if before.dom().contains(other.page) {
                let i = choose|i: int| 0 <= i < ids.len() && ids[i] == other.page;
                assert(!freed.dom().contains(ids[i]));
                assert(old_ids.contains(other.page));
                let k = choose|k: int| 0 <= k < old_ids.len() && old_ids[k] == other.page;
                assert(!is_data_page(before, old_ids[k]));
            }
        } else if old_ids.contains(other.page) {
            let k = choose|k: int| 0 <= k < old_ids.len() && old_ids[k] == other.page;
            assert(!is_data_page(before, old_ids[k]));
            assert(!middle.dom().contains(other.page));
        } else if before.dom().contains(other.page) {
            assert(freed.dom().contains(other.page));
        } else {
            assert(!middle.dom().contains(other.page));
        }
    }
    if storable(doc) {
        encoded_document_reads_back(doc, MAX_NESTING as nat, seq![]);
        assert(encoded(doc) + Seq::<u8>::empty() =~= encoded(doc));
    }
    assert forall|p: PageId| #[trigger] ids.contains(p) implies !before.dom().contains(p)
        || old_ids.contains(p) by {
        let i = choose|i: int| 0 <= i < ids.len() && ids[i] == p;
        assert(!freed.dom().contains(ids[i]));
    }
    assert forall|p: PageId| #[trigger]
        before.dom().contains(p) && p != current && p != loc.page && !old_ids.contains(
            p,
        ) implies after[p] == before[p] by {
        assert(freed.dom().contains(p));
    }
    if current != 0 && current != loc.page {
        if old_ids.contains(current) {
            let k = choose|k: int| 0 <= k < old_ids.len() && old_ids[k] == current;
            assert(!is_data_page(before, old_ids[k]));
        }
        assert(freed.dom().contains(current));
    }
}

/// The pages of a cell's chain are overflow pages, and distinct.
proof fn lemma_cell_chain_pages(pages: Map<PageId, Seq<u8>>, cell: Seq<u8>)
    requires
        cell_chain(pages, cell) is Some,
    ensures
        ({
            let ids = cell_chain(pages, cell)->Some_0;
            &&& ids.no_duplicates()
            &&& forall|i: int|
                0 <= i < ids.len() ==> is_overflow_page(pages, #[trigger] ids[i]) && !is_data_page(
                    pages,
                    ids[i],
                )
        }),
{
    let ids = cell_chain(pages, cell)->Some_0;
    match parse_cell(cell) {
        Some(CellModel::Overflow { id, len, first }) => {
            assert(chain_at(pages, first, len) is Some);
            lemma_chain_distinct(pages, first, len);
            assert forall|i: int| 0 <= i < ids.len() implies is_overflow_page(
                pages,
                #[trigger] ids[i],
            ) && !is_data_page(pages, ids[i]) by {
                lemma_chain_pages(pages, first, len, i);
                lemma_overflow_is_not_data(pages, ids[i]);
            }
        },
        _ => {
            assert(ids =~= seq![]);
        },
    }
}

/// Pages that agree where a cell's chain is give it the same meaning.
proof fn lemma_cell_frame(before: Map<PageId, Seq<u8>>, after: Map<PageId, Seq<u8>>, cell: Seq<u8>)
    requires
        cell_chain(before, cell) is Some,
        forall|p: PageId| #[trigger]
            cell_chain(before, cell)->Some_0.contains(p) ==> after.dom().contains(p) && after[p]
                == before[p],
    ensures
        cell_chain(after, cell) == cell_chain(before, cell),
        cell_bytes(after, cell) == cell_bytes(before, cell),
{
    match parse_cell(cell) {
        Some(CellModel::Overflow { id, len, first }) => {
            assert(chain_at(before, first, len) is Some);
            let ids = chain_at(before, first, len)->Some_0.0;
            assert(cell_chain(before, cell) == Some(ids));
            assert forall|i: int| 0 <= i < ids.len() implies after.dom().contains(
                #[trigger] ids[i],
            ) && after[ids[i]] == before[ids[i]] by {
                assert(cell_chain(before, cell)->Some_0.contains(ids[i]));
            }
            lemma_chain_frame(before, after, first, len);
        },
        _ => {},
    }
}

/// The new document goes elsewhere.
#[verifier::rlimit(30)]
proof fn lemma_replaced_elsewhere(
    before: Map<PageId, Seq<u8>>,
    middle: Map<PageId, Seq<u8>>,
    left: Map<PageId, Seq<u8>>,
    after: Map<PageId, Seq<u8>>,
    current: PageId,
    loc: RecordLocation,
    now: RecordLocation,
    m: PageModel,
    page: PageModel,
    cell: Seq<u8>,
    ids: Seq<PageId>,
    id: Seq<u8>,
    doc: DocModel,
)
    requires
        record_chain(before, loc) is Some,
        only_new(before.remove_keys(record_chain(before, loc)->Some_0.to_set()), middle, ids),
        cell_bytes(middle, cell) == Some((id, encoded(doc))),
        cell_chain(middle, cell) == Some(ids),
        is_data_page(before, loc.page),
        parse_page(before[loc.page]) == Some(m),
        page == (PageModel { slots: m.slots.update(loc.slot as int, None), ..m }),
        left == (if loc.page != current && (forall|i: int|
            0 <= i < page.slots.len() ==> (#[trigger] page.slots[i]) is None) {
            middle.remove(loc.page)
        } else {
            middle.insert(loc.page, page_bytes(page))
        }),
        parse_page(page_bytes(page)) == Some(page),
        current == 0 || is_data_page(before, current),
        !middle.dom().contains(0),
        current == 0 || is_data_page(left, current) ==> cell_placed(left, after, current, now, cell),
        !stays(before, loc, doc),
        cell.len() == cell_len(doc),
        encoded(doc).len() <= u32::MAX,
    ensures
        record_replaced(before, after, current, loc, now, id, doc),
        current == 0 || is_data_page(left, current),
{
    let old_ids = record_chain(before, loc)->Some_0;
    let freed = before.remove_keys(old_ids.to_set());
    lemma_record_chain(before, loc);
    assert forall|p: PageId| #[trigger] old_ids.to_set().contains(p) <==> old_ids.contains(p) by {}
    let bare = loc.page != current && (forall|i: int|
        0 <= i < page.slots.len() ==> (#[trigger] page.slots[i]) is None);
    let without = if bare {
        freed.remove(loc.page)
    } else {
        freed.insert(loc.page, page_bytes(page))
    };
    lemma_record_deleted(before, freed, without, current, loc, m, page);
    assert(freed.dom().contains(loc.page));
    lemma_cell_chain_pages(middle, cell);
    assert forall|p: PageId| #[trigger] ids.contains(p) implies !is_data_page(middle, p) && p
        != loc.page && !freed.dom().contains(p) && middle.dom().contains(p) && left.dom().contains(
        p,
    ) && left[p] == middle[p] by {
        let i = choose|i: int| 0 <= i < ids.len() && ids[i] == p;
        assert(!freed.dom().contains(ids[i]));
        assert(!is_data_page(middle, ids[i]));
    }
    if current != 0 && current != loc.page {
        if old_ids.contains(current) {
            let k = choose|k: int| 0 <= k < old_ids.len() && old_ids[k] == current;
            assert(!is_data_page(before, old_ids[k]));
        }
        assert(freed.dom().contains(current));
        assert(middle[current] == freed[current]);
    }
    assert(current == 0 || is_data_page(left, current));
    assert(cell_placed(left, after, current, now, cell));
    assert forall|p: PageId| #[trigger] left.dom().contains(p) <==> ids.contains(p)
        || without.dom().contains(p) by {
        assert(middle.dom().contains(p) <==> freed.dom().contains(p) || ids.contains(p));
    }
    assert forall|other: RecordLocation| #[trigger] data_slot(left, other) == data_slot(
        without,
        other,
    ) by {
        if ids.contains(other.page) {
            assert(!without.dom().contains(other.page));
        } else if freed.dom().contains(other.page) {
            assert(middle[other.page] == freed[other.page]);
        } else {
            assert(!middle.dom().contains(other.page));
        }
    }
    assert(data_slot(left, loc) is None);
    assert forall|other: RecordLocation| other != loc && other != now implies #[trigger] data_slot(
        after,
        other,
    ) == data_slot(before, other) by {
        assert(data_slot(after, other) == data_slot(left, other));
        assert(data_slot(left, other) == data_slot(without, other));
    }
    assert(now != loc ==> data_slot(before, now) is None) by {
        assert(data_slot(left, now) == data_slot(without, now));
    }
    assert forall|p: PageId| #[trigger] ids.contains(p) implies after.dom().contains(p) && after[p]
        == middle[p] && p != now.page by {
        assert(left.dom().contains(p));
        if current != 0 {
            assert(is_data_page(left, current));
        }
        assert(p != current);
    }
    lemma_cell_frame(middle, after, cell);
    assert(record_chain(after, now) == Some(ids));
    if storable(doc) {
        encoded_document_reads_back(doc, MAX_NESTING as nat, seq![]);
        assert(encoded(doc) + Seq::<u8>::empty() =~= encoded(doc));
    }
    assert forall|p: PageId| #[trigger]
        before.dom().contains(p) && p != current && p != loc.page && !old_ids.contains(
            p,
        ) implies after[p] == before[p] by {
        assert(freed.dom().contains(p));
        assert(left.dom().contains(p));
        assert(left[p] == before[p]);
    }
    assert forall|p: PageId| #[trigger]
        after.dom().contains(p) <==> ids.contains(p) || p == now.page || (before.dom().contains(p)
            && !old_ids.contains(p) && !(p == loc.page && !stays(before, loc, doc) && page_empties(
            before,
            current,
            loc,
        ))) by {
        assert(after.dom().contains(p) <==> left.dom().contains(p) || p == now.page);
        assert(without.dom().contains(p) <==> before.dom().contains(p) && !old_ids.contains(p) && !(
        p == loc.page && page_empties(before, current, loc)));
    }
}

/// Replaces the document at `loc`, returning where it lives now. Usually
/// that's `loc` itself: the cell is rewritten in place. If the grown cell
/// doesn't fit on its page at all anymore, it moves: out of `loc`, into
/// wherever an insert would put it. The caller must then re-point the index
/// at the returned location.
///
/// An old overflow chain is freed first and the new one written from
/// scratch, whatever the sizes: the freed pages are the first ones the new
/// chain gets back from the free list anyway.
pub fn update_record<S: PageStore>(
    store: &mut S,
    current: &mut PageId,
    loc: RecordLocation,
    id: DocId,
    doc: &Document,
) -> (r: IoResult<RecordLocation>)
    requires
        old(store).wf(),
    ensures
        final(store).wf(),
        final(store).reliable() == old(store).reliable(),
        *old(current) == 0 || is_data_page(old(store).pages(), *old(current)) ==> match r {
            Ok(now) => {
                &&& record_chain(old(store).pages(), loc) is Some
                &&& record_replaced(
                    old(store).pages(),
                    final(store).pages(),
                    *old(current),
                    loc,
                    now,
                    id@,
                    doc@,
                )
                &&& *final(current) == (if stays(old(store).pages(), loc, doc@) {
                    *old(current)
                } else {
                    now.page
                })
            },
            Err(e) => !old(store).reliable() || final(store).full() || record_chain(
                old(store).pages(),
                loc,
            ) is None || (encoded(doc@).len() > u32::MAX && e.kind == ErrorKind::InvalidInput),
        },
        record_chain(old(store).pages(), loc) is None ==> r is Err,
        encoded(doc@).len() > u32::MAX ==> r is Err,
{
    let ghost before = store.pages();
    let ghost start = *current;
    let mut page = match read_data_page(store, loc.page) {
        Ok(page) => page,
        Err(e) => return Err(e),
    };
    let ghost m = page@;
    let chain = match live_cell(&page, loc) {
        Ok(cell) => match chain_of(store, cell) {
            Ok(chain) => chain,
            Err(e) => return Err(e),
        },
        Err(e) => return Err(e),
    };
    proof {
        assert(record_chain(before, loc) == Some(chain@));
        lemma_record_chain(before, loc);
    }
    match free_pages(store, &chain) {
        Ok(()) => {},
        Err(e) => return Err(e),
    }
    let ghost freed = store.pages();
    let (cell, ids) = match write_cell(store, id, doc) {
        Ok(written) => written,
        Err(e) => return Err(e),
    };
    let ghost middle = store.pages();
    proof {
        store.lemma_pages();
        page.lemma_wf_fits();
        lemma_cells_len_update(m.slots, loc.slot as int, Some(cell@));
        assert(freed.dom().contains(loc.page));
        assert(middle.dom().contains(loc.page));
    }
    if page.update_cell(loc.slot, cell.as_slice()) {
        let ghost now_page = page@;
        let bytes = page.into_bytes();
        match store.write_page(loc.page, bytes.as_slice()) {
            Ok(()) => {},
            Err(e) => return Err(e),
        }
        proof {
            if start == 0 || is_data_page(before, start) {
                lemma_replaced_in_place(
                    before,
                    middle,
                    store.pages(),
                    start,
                    loc,
                    m,
                    now_page,
                    cell@,
                    ids@,
                    id@,
                    doc@,
                );
            }
        }
        return Ok(loc);
    }
    page.delete_cell(loc.slot);
    let ghost now_page = page@;
    match write_or_free(store, *current, loc.page, page) {
        Ok(()) => {},
        Err(e) => return Err(e),
    }
    let ghost left = store.pages();
    proof {
        if start != 0 && is_data_page(before, start) && start != loc.page {
            if chain@.contains(start) {
                let k = choose|k: int| 0 <= k < chain@.len() && chain@[k] == start;
                assert(!is_data_page(before, chain@[k]));
            }
            assert(freed.dom().contains(start));
            assert(middle[start] == freed[start]);
        }
    }
    match place_cell(store, current, cell.as_slice()) {
        Ok(now) => {
            proof {
                if start == 0 || is_data_page(before, start) {
                    lemma_replaced_elsewhere(
                        before,
                        middle,
                        left,
                        store.pages(),
                        start,
                        loc,
                        now,
                        m,
                        now_page,
                        cell@,
                        ids@,
                        id@,
                        doc@,
                    );
                }
            }
            Ok(now)
        },
        Err(e) => Err(e),
    }
}

// ---------------------------------------------------------------------
// A collection's pages.

/// The overflow pages of the records at `locs`, in order; `None` if one
/// can't be followed.
pub open spec fn chains_at(pages: Map<PageId, Seq<u8>>, locs: Seq<RecordLocation>) -> Option<
    Seq<PageId>,
>
    decreases locs.len(),
{
    if locs.len() == 0 {
        Some(seq![])
    } else {
        match (chains_at(pages, locs.drop_last()), record_chain(pages, locs.last())) {
            (Some(front), Some(ids)) => Some(front + ids),
            _ => None,
        }
    }
}

/// Ids in ascending order, none twice.
pub open spec fn ascending(ids: Seq<PageId>) -> bool {
    forall|i: int, j: int| 0 <= i < j < ids.len() ==> ids[i] < ids[j]
}

/// Whether `id` is the page of one of `locs`, or the current page.
pub open spec fn holds_records(current: PageId, locs: Seq<RecordLocation>, id: PageId) -> bool {
    (current != 0 && id == current) || exists|i: int|
        0 <= i < locs.len() && (#[trigger] locs[i]).page == id
}

/// Puts an id where it belongs in ascending order, unless it's there.
fn insert_ascending(ids: &mut Vec<PageId>, id: PageId)
    requires
        ascending(old(ids)@),
    ensures
        ascending(final(ids)@),
        forall|p: PageId| #[trigger] final(ids)@.contains(p) <==> old(ids)@.contains(p) || p == id,
{
    let ghost before = ids@;
    let mut low: usize = 0;
    let mut high: usize = ids.len();
    while low < high
        invariant
            ids@ == before,
            ascending(before),
            low <= high <= before.len(),
            forall|i: int| 0 <= i < low ==> before[i] < id,
            forall|i: int| high <= i < before.len() ==> before[i] >= id,
        decreases high - low,
    {
        let middle: usize = low + (high - low) / 2;
        if ids[middle] < id {
            low = middle + 1;
        } else {
            high = middle;
        }
    }
    if low < ids.len() && ids[low] == id {
        assert(before[low as int] == id);
        return ;
    }
    ids.insert(low, id);
    proof {
        assert(ids@ == before.insert(low as int, id));
        assert forall|p: PageId| #[trigger] ids@.contains(p) <==> before.contains(p) || p == id by {
            if before.contains(p) {
                let i = choose|i: int| 0 <= i < before.len() && before[i] == p;
                if i < low {
                    assert(ids@[i] == p);
                } else {
                    assert(ids@[i + 1] == p);
                }
            }
            if p == id {
                assert(ids@[low as int] == p);
            }
            if ids@.contains(p) && p != id {
                let i = choose|i: int| 0 <= i < ids@.len() && ids@[i] == p;
                if i < low {
                    assert(before[i] == p);
                } else {
                    assert(before[i - 1] == p);
                }
            }
        }
    }
}

/// A collection's data pages (the ones holding the documents at `locs`, and
/// its `current` one) and its documents' overflow pages.
pub fn collection_pages<S: PageStore>(
    store: &S,
    current: PageId,
    locs: &[RecordLocation],
) -> (r: IoResult<(Vec<PageId>, Vec<PageId>)>)
    requires
        store.wf(),
    ensures
        match r {
            Ok((data_pages, chain_pages)) => {
                &&& chains_at(store.pages(), locs@) == Some(chain_pages@)
                &&& (current == 0 || is_data_page(store.pages(), current))
                &&& ascending(data_pages@)
                &&& forall|id: PageId| #[trigger]
                    data_pages@.contains(id) <==> holds_records(current, locs@, id)
            },
            Err(e) => !store.reliable() || (e.kind == ErrorKind::InvalidData && (chains_at(
                store.pages(),
                locs@,
            ) is None || (current != 0 && !is_data_page(store.pages(), current)))),
        },
{
    let ghost pages = store.pages();
    let mut data_pages: Vec<PageId> = Vec::new();
    let mut chain_pages: Vec<PageId> = Vec::new();
    let n: usize = locs.len();
    assert(locs@.take(0) =~= seq![]);
    for i in 0..n
        invariant
            store.wf(),
            pages == store.pages(),
            n == locs@.len(),
            chains_at(pages, locs@.take(i as int)) == Some(chain_pages@),
            ascending(data_pages@),
            forall|id: PageId| #[trigger]
                data_pages@.contains(id) <==> holds_records(0, locs@.take(i as int), id),
    {
        let loc: RecordLocation = locs[i];
        let ghost so_far = locs@.take(i as int);
        let ghost more = locs@.take(i + 1);
        proof {
            assert(more.drop_last() =~= so_far);
            assert(more.last() == loc);
            lemma_chains_prefix(pages, locs@, i + 1);
        }
        let page = match read_data_page(store, loc.page) {
            Ok(page) => page,
            Err(e) => return Err(e),
        };
        let chain = match live_cell(&page, loc) {
            Ok(cell) => match chain_of(store, cell) {
                Ok(chain) => chain,
                Err(e) => return Err(e),
            },
            Err(e) => return Err(e),
        };
        assert(record_chain(pages, loc) == Some(chain@));
        let ghost front = chain_pages@;
        chain_pages.extend_from_slice(chain.as_slice());
        assert(chain_pages@ =~= front + chain@);
        insert_ascending(&mut data_pages, loc.page);
        proof {
            assert forall|id: PageId| #[trigger] data_pages@.contains(id) <==> holds_records(
                0,
                more,
                id,
            ) by {
                if holds_records(0, so_far, id) {
                    let k = choose|k: int| 0 <= k < so_far.len() && (#[trigger] so_far[k]).page == id;
                    assert(more[k].page == id);
                }
                if id == loc.page {
                    assert(more[i as int].page == id);
                }
                if holds_records(0, more, id) && id != loc.page {
                    let k = choose|k: int| 0 <= k < more.len() && (#[trigger] more[k]).page == id;
                    assert(so_far[k].page == id);
                }
            }
        }
    }
    assert(locs@.take(n as int) =~= locs@);
    if current != 0 {
        // A data page, as the catalog says.
        match read_data_page(store, current) {
            Ok(_) => {},
            Err(e) => return Err(e),
        }
        insert_ascending(&mut data_pages, current);
    }
    Ok((data_pages, chain_pages))
}

/// The front of a list of records can be followed if the list can.
proof fn lemma_chains_prefix(pages: Map<PageId, Seq<u8>>, locs: Seq<RecordLocation>, n: int)
    requires
        0 <= n <= locs.len(),
    ensures
        chains_at(pages, locs) is Some ==> chains_at(pages, locs.take(n)) is Some,
    decreases locs.len(),
{
    if n == locs.len() {
        assert(locs.take(n) =~= locs);
    } else {
        lemma_chains_prefix(pages, locs.drop_last(), n);
        assert(locs.drop_last().take(n) =~= locs.take(n));
    }
}

/// The pages of the records at `locs` are in the store.
proof fn lemma_chains_pages(pages: Map<PageId, Seq<u8>>, locs: Seq<RecordLocation>)
    requires
        chains_at(pages, locs) is Some,
    ensures
        forall|p: PageId| #[trigger]
            chains_at(pages, locs)->Some_0.contains(p) ==> is_overflow_page(pages, p),
        forall|i: int| 0 <= i < locs.len() ==> is_data_page(pages, (#[trigger] locs[i]).page),
    decreases locs.len(),
{
    if locs.len() > 0 {
        let front = locs.drop_last();
        lemma_chains_pages(pages, front);
        lemma_record_chain(pages, locs.last());
        let ids = record_chain(pages, locs.last())->Some_0;
        let whole = chains_at(pages, locs)->Some_0;
        let front_ids = chains_at(pages, front)->Some_0;
        assert forall|p: PageId| #[trigger] whole.contains(p) implies is_overflow_page(pages, p) by {
            crate::index::tree::lemma_contains_concat(front_ids, ids, p);
            if ids.contains(p) {
                let i = choose|i: int| 0 <= i < ids.len() && ids[i] == p;
                assert(is_overflow_page(pages, ids[i]));
            }
        }
        assert forall|i: int| 0 <= i < locs.len() implies is_data_page(
            pages,
            (#[trigger] locs[i]).page,
        ) by {
            if i < locs.len() - 1 {
                assert(front[i] == locs[i]);
            }
        }
    }
}

/// Frees every page a dropped collection's documents use: the data pages at
/// `locs`, their documents' overflow chains, and the collection's `current`
/// data page, which may hold none of them (it stays even when empty). A
/// data page never holds two collections' documents, so every page here is
/// the collection's own. Everything is read before anything is freed.
pub fn free_collection_pages<S: PageStore>(
    store: &mut S,
    current: PageId,
    locs: &[RecordLocation],
) -> (r: IoResult<()>)
    requires
        old(store).wf(),
    ensures
        final(store).wf(),
        final(store).reliable() == old(store).reliable(),
        chains_at(old(store).pages(), locs@) is None ==> r is Err,
        current != 0 && !is_data_page(old(store).pages(), current) ==> r is Err,
        (chains_at(old(store).pages(), locs@) matches Some(ids) ==> ids.no_duplicates()) ==> match r {
            Ok(()) => forall|p: PageId| #[trigger]
                final(store).pages().dom().contains(p) <==> old(store).pages().dom().contains(p)
                    && !chains_at(old(store).pages(), locs@)->Some_0.contains(p) && !holds_records(
                    current,
                    locs@,
                    p,
                ),
            Err(e) => !old(store).reliable() || (e.kind == ErrorKind::InvalidData && (chains_at(
                old(store).pages(),
                locs@,
            ) is None || (current != 0 && !is_data_page(old(store).pages(), current)))),
        },
        chains_at(old(store).pages(), locs@) is None || (current != 0 && !is_data_page(
            old(store).pages(),
            current,
        )) ==> final(store).pages() == old(store).pages(),
        (chains_at(old(store).pages(), locs@) matches Some(ids) ==> ids.no_duplicates()) && r is Ok
            ==> forall|p: PageId| #[trigger]
            final(store).pages().dom().contains(p) ==> final(store).pages()[p] == old(
                store,
            ).pages()[p],
{
    let ghost pages = store.pages();
    let (data_pages, chain_pages) = match collection_pages(store, current, locs) {
        Ok(found) => found,
        Err(e) => return Err(e),
    };
    let mut all: Vec<PageId> = Vec::new();
    all.extend_from_slice(chain_pages.as_slice());
    all.extend_from_slice(data_pages.as_slice());
    proof {
        assert(all@ =~= chain_pages@ + data_pages@);
        lemma_chains_pages(pages, locs@);
        assert(chains_at(pages, locs@)->Some_0 == chain_pages@);
        assert forall|p: PageId| #[trigger] data_pages@.contains(p) implies is_data_page(
            pages,
            p,
        ) by {
            assert(holds_records(current, locs@, p));
        }
        assert forall|p: PageId| #[trigger] all@.contains(p) <==> chain_pages@.contains(p)
            || data_pages@.contains(p) by {
            crate::index::tree::lemma_contains_concat(chain_pages@, data_pages@, p);
        }
        assert forall|i: int| 0 <= i < all@.len() implies pages.dom().contains(
            #[trigger] all@[i],
        ) by {
            assert(all@.contains(all@[i]));
            if chain_pages@.contains(all@[i]) {
                assert(is_overflow_page(pages, all@[i]));
            }
        }
        if chain_pages@.no_duplicates() {
            assert forall|i: int, j: int| 0 <= i < j < all@.len() implies all@[i] != all@[j] by {
                if j < chain_pages@.len() {
                    assert(chain_pages@[i] != chain_pages@[j]);
                } else if i >= chain_pages@.len() {
                    assert(data_pages@[i - chain_pages@.len()] < data_pages@[j
                        - chain_pages@.len()]);
                } else {
                    assert(chain_pages@.contains(all@[i]));
                    assert(all@[j] == data_pages@[j - chain_pages@.len()]);
                    assert(data_pages@.contains(all@[j]));
                    assert(is_data_page(pages, all@[j]));
                    assert(is_overflow_page(pages, all@[i]));
                    lemma_overflow_is_not_data(pages, all@[i]);
                }
            }
        }
        assert forall|p: PageId| #[trigger] all@.to_set().contains(p) <==> all@.contains(p) by {}
    }
    free_pages(store, &all)
}

} // verus!

//! A page of cells: a type, a link to another page, and a directory of
//! slots, each free or pointing at a cell. A cell keeps its slot number for
//! as long as it lives, so a record's location stays valid when others on
//! the page come and go.
//!
//! Layout: `[u8 type][u64 next][u16 slot count]`, then per slot
//! `[u16 offset][u16 length]` (offset 0 = free), then the cells in slot
//! order, then zeros.

use super::{PageId, PageType, USABLE_PAGE_SIZE};
use crate::bytes::{
    from_le, get_le, le_bytes, lemma_from_le_bound, lemma_le_len, lemma_le_roundtrip,
    lemma_pow256_values, put_le,
};
use crate::decode::corrupt;
use crate::error::{ErrorKind, IoResult};
use crate::text::{decimal_text, join};
use vstd::prelude::*;
use vstd::slice::{slice_subrange, slice_to_vec};

verus! {

/// Bytes before the slot directory.
pub const PAGE_HEADER_LEN: usize = 11;

/// Bytes per slot.
pub const SLOT_LEN: usize = 4;

/// What a page holds, without how it is laid out.
#[verifier::ext_equal]
pub ghost struct PageModel {
    pub kind: PageType,
    pub next: PageId,
    pub slots: Seq<Option<Seq<u8>>>,
}

/// How many bytes a slot's cell takes.
pub open spec fn slot_bytes(slot: Option<Seq<u8>>) -> nat {
    match slot {
        Some(cell) => cell.len(),
        None => 0,
    }
}

/// How many bytes all the cells take.
pub open spec fn cells_len(slots: Seq<Option<Seq<u8>>>) -> nat
    decreases slots.len(),
{
    if slots.len() == 0 {
        0
    } else {
        cells_len(slots.drop_last()) + slot_bytes(slots.last())
    }
}

/// How many bytes of a page are in use.
pub open spec fn used(slots: Seq<Option<Seq<u8>>>) -> nat {
    PAGE_HEADER_LEN as nat + SLOT_LEN as nat * slots.len() + cells_len(slots)
}

/// Whether the cells and their slots fit on a page.
pub open spec fn fits(slots: Seq<Option<Seq<u8>>>) -> bool {
    used(slots) <= USABLE_PAGE_SIZE
}

/// A slot's directory entry, its cell starting at `at`.
pub open spec fn slot_entry(slot: Option<Seq<u8>>, at: nat) -> Seq<u8> {
    match slot {
        Some(cell) => le_bytes(at, 2) + le_bytes(cell.len(), 2),
        None => le_bytes(0, 2) + le_bytes(0, 2),
    }
}

/// The directory of `slots`, the first cell starting at `at`.
pub open spec fn directory(slots: Seq<Option<Seq<u8>>>, at: nat) -> Seq<u8>
    decreases slots.len(),
{
    if slots.len() == 0 {
        seq![]
    } else {
        directory(slots.drop_last(), at) + slot_entry(
            slots.last(),
            at + cells_len(slots.drop_last()),
        )
    }
}

/// The cells, in slot order.
pub open spec fn packed(slots: Seq<Option<Seq<u8>>>) -> Seq<u8>
    decreases slots.len(),
{
    if slots.len() == 0 {
        seq![]
    } else {
        packed(slots.drop_last()) + (match slots.last() {
            Some(cell) => cell,
            None => seq![],
        })
    }
}

/// Zeros, `n` of them.
pub open spec fn zeros(n: int) -> Seq<u8> {
    Seq::new(n as nat, |i: int| 0u8)
}

/// The header of a page.
pub open spec fn header_bytes(m: PageModel) -> Seq<u8> {
    seq![m.kind.code()] + le_bytes(m.next as nat, 8) + le_bytes(m.slots.len(), 2)
}

/// A page's bytes.
pub open spec fn page_bytes(m: PageModel) -> Seq<u8> {
    header_bytes(m) + directory(m.slots, PAGE_HEADER_LEN as nat + SLOT_LEN as nat * m.slots.len())
        + packed(m.slots) + zeros(USABLE_PAGE_SIZE - used(m.slots))
}

/// The cell at slot `i` of a page's bytes, if there is one.
pub open spec fn slot_at(bytes: Seq<u8>, i: int) -> Option<Seq<u8>> {
    let at = PAGE_HEADER_LEN + SLOT_LEN * i;
    let offset = from_le(bytes.subrange(at, at + 2)) as int;
    let len = from_le(bytes.subrange(at + 2, at + 4)) as int;
    if offset == 0 {
        None
    } else {
        Some(bytes.subrange(offset, offset + len))
    }
}

/// Whether slot `i` of a page's bytes is free or lies on the page.
pub open spec fn slot_ok(bytes: Seq<u8>, i: int) -> bool {
    let at = PAGE_HEADER_LEN + SLOT_LEN * i;
    let offset = from_le(bytes.subrange(at, at + 2)) as int;
    let len = from_le(bytes.subrange(at + 2, at + 4)) as int;
    offset == 0 || offset + len <= USABLE_PAGE_SIZE
}

/// How many slots a page's bytes have.
pub open spec fn slot_count(bytes: Seq<u8>) -> nat {
    from_le(bytes.subrange(9, 11))
}

/// The slots of a page's bytes.
pub open spec fn slots_of(bytes: Seq<u8>) -> Seq<Option<Seq<u8>>> {
    Seq::new(slot_count(bytes), |i: int| slot_at(bytes, i))
}

/// What a page's bytes hold; `None` if they are damaged: an unknown type,
/// a slot that points outside the page, or cells that overlap so much that
/// they would not fit side by side.
pub open spec fn parse_page(bytes: Seq<u8>) -> Option<PageModel> {
    if bytes.len() != USABLE_PAGE_SIZE || PageType::of_code(bytes[0]) is None || PAGE_HEADER_LEN
        + SLOT_LEN * slot_count(bytes) > USABLE_PAGE_SIZE || !(forall|i: int|
        0 <= i < slot_count(bytes) ==> #[trigger] slot_ok(bytes, i)) || !fits(slots_of(bytes)) {
        None
    } else {
        Some(
            PageModel {
                kind: PageType::of_code(bytes[0])->Some_0,
                next: from_le(bytes.subrange(1, 9)) as u64,
                slots: slots_of(bytes),
            },
        )
    }
}

// ---------------------------------------------------------------------
// A page reads back as it was written.

pub proof fn lemma_cells_len_take(slots: Seq<Option<Seq<u8>>>, i: int)
    requires
        0 <= i < slots.len(),
    ensures
        cells_len(slots.take(i)) + slot_bytes(slots[i]) <= cells_len(slots),
        cells_len(slots.take(i + 1)) == cells_len(slots.take(i)) + slot_bytes(slots[i]),
    decreases slots.len(),
{
    assert(slots.take(i + 1).drop_last() =~= slots.take(i));
    if i == slots.len() - 1 {
        assert(slots.take(i) =~= slots.drop_last());
    } else {
        lemma_cells_len_take(slots.drop_last(), i);
        assert(slots.drop_last().take(i) =~= slots.take(i));
    }
}

proof fn lemma_packed(slots: Seq<Option<Seq<u8>>>, i: int)
    requires
        0 <= i < slots.len(),
        slots[i] is Some,
    ensures
        packed(slots).len() == cells_len(slots),
        packed(slots).subrange(
            cells_len(slots.take(i)) as int,
            (cells_len(slots.take(i)) + slots[i]->Some_0.len()) as int,
        ) == slots[i]->Some_0,
    decreases slots.len(),
{
    lemma_packed_len(slots);
    lemma_packed_len(slots.drop_last());
    let at = cells_len(slots.take(i)) as int;
    let cell = slots[i]->Some_0;
    if i == slots.len() - 1 {
        assert(slots.take(i) =~= slots.drop_last());
        assert(packed(slots).subrange(at, at + cell.len()) =~= cell);
    } else {
        lemma_packed(slots.drop_last(), i);
        assert(slots.drop_last().take(i) =~= slots.take(i));
        lemma_cells_len_take(slots.drop_last(), i);
        assert(packed(slots).subrange(at, at + cell.len()) =~= packed(slots.drop_last()).subrange(
            at,
            at + cell.len(),
        ));
    }
}

proof fn lemma_packed_len(slots: Seq<Option<Seq<u8>>>)
    ensures
        packed(slots).len() == cells_len(slots),
    decreases slots.len(),
{
    if slots.len() > 0 {
        lemma_packed_len(slots.drop_last());
    }
}

proof fn lemma_directory(slots: Seq<Option<Seq<u8>>>, at: nat, i: int)
    requires
        0 <= i < slots.len(),
    ensures
        directory(slots, at).len() == 4 * slots.len(),
        directory(slots, at).subrange(4 * i, 4 * i + 4) == slot_entry(
            slots[i],
            at + cells_len(slots.take(i)),
        ),
    decreases slots.len(),
{
    lemma_directory_len(slots, at);
    lemma_directory_len(slots.drop_last(), at);
    lemma_entry_len(slots.last(), at + cells_len(slots.drop_last()));
    if i == slots.len() - 1 {
        assert(slots.take(i) =~= slots.drop_last());
        assert(directory(slots, at).subrange(4 * i, 4 * i + 4) =~= slot_entry(
            slots[i],
            at + cells_len(slots.take(i)),
        ));
    } else {
        lemma_directory(slots.drop_last(), at, i);
        assert(slots.drop_last().take(i) =~= slots.take(i));
        assert(directory(slots, at).subrange(4 * i, 4 * i + 4) =~= directory(
            slots.drop_last(),
            at,
        ).subrange(4 * i, 4 * i + 4));
    }
}

proof fn lemma_entry_len(slot: Option<Seq<u8>>, at: nat)
    ensures
        slot_entry(slot, at).len() == 4,
{
    lemma_le_len(at, 2);
    lemma_le_len(0, 2);
    if slot is Some {
        lemma_le_len(slot->Some_0.len(), 2);
    }
}

proof fn lemma_directory_len(slots: Seq<Option<Seq<u8>>>, at: nat)
    ensures
        directory(slots, at).len() == 4 * slots.len(),
    decreases slots.len(),
{
    if slots.len() > 0 {
        lemma_directory_len(slots.drop_last(), at);
        lemma_entry_len(slots.last(), at + cells_len(slots.drop_last()));
    }
}

/// A page whose cells fit reads back from its bytes as it was.
pub proof fn page_reads_back(m: PageModel)
    requires
        fits(m.slots),
    ensures
        page_bytes(m).len() == USABLE_PAGE_SIZE,
        parse_page(page_bytes(m)) == Some(m),
{
    let bytes = page_bytes(m);
    let n = m.slots.len();
    let start = (PAGE_HEADER_LEN + SLOT_LEN * n) as nat;
    let head = header_bytes(m);
    let dir = directory(m.slots, start);
    let cells = packed(m.slots);
    let tail = zeros(USABLE_PAGE_SIZE - used(m.slots));
    lemma_pow256_values();
    lemma_le_roundtrip(m.next as nat, 8);
    lemma_le_roundtrip(n, 2);
    lemma_directory_len(m.slots, start);
    lemma_packed_len(m.slots);
    assert(head.len() == 11);
    assert(bytes[0] == m.kind.code());
    assert(PageType::of_code(m.kind.code()) == Some(m.kind));
    assert(bytes.subrange(1, 9) =~= le_bytes(m.next as nat, 8));
    assert(bytes.subrange(9, 11) =~= le_bytes(n, 2));
    assert forall|i: int| 0 <= i < n implies #[trigger] slot_ok(bytes, i) && slot_at(bytes, i)
        == m.slots[i] by {
        let at = 11 + 4 * i;
        lemma_directory(m.slots, start, i);
        let entry = dir.subrange(4 * i, 4 * i + 4);
        let offset = start + cells_len(m.slots.take(i));
        lemma_cells_len_take(m.slots, i);
        assert(bytes.subrange(at, at + 2) =~= entry.subrange(0, 2));
        assert(bytes.subrange(at + 2, at + 4) =~= entry.subrange(2, 4));
        match m.slots[i] {
            Some(cell) => {
                lemma_le_roundtrip(offset, 2);
                lemma_le_roundtrip(cell.len(), 2);
                assert(entry.subrange(0, 2) =~= le_bytes(offset, 2));
                assert(entry.subrange(2, 4) =~= le_bytes(cell.len(), 2));
                lemma_packed(m.slots, i);
                assert(bytes.subrange(offset as int, (offset + cell.len()) as int) =~= cells.subrange(
                    offset - start,
                    offset - start + cell.len(),
                ));
            },
            None => {
                lemma_le_roundtrip(0, 2);
                assert(entry.subrange(0, 2) =~= le_bytes(0, 2));
            },
        }
    }
    assert(slots_of(bytes) =~= m.slots) by {
        assert forall|i: int| 0 <= i < n implies slots_of(bytes)[i] == m.slots[i] by {
            assert(slot_ok(bytes, i));
        }
    }
}

// ---------------------------------------------------------------------
// Cells that live.

/// The cells that live, in slot order.
pub open spec fn live(slots: Seq<Option<Seq<u8>>>) -> Seq<Seq<u8>>
    decreases slots.len(),
{
    if slots.len() == 0 {
        seq![]
    } else {
        match slots.last() {
            Some(cell) => live(slots.drop_last()).push(cell),
            None => live(slots.drop_last()),
        }
    }
}

/// Freeing a slot takes its cell out of those that live.
pub proof fn lemma_live_delete(slots: Seq<Option<Seq<u8>>>, i: int)
    requires
        0 <= i < slots.len(),
        slots[i] is Some,
    ensures
        live(slots.take(i)).len() < live(slots).len(),
        live(slots)[live(slots.take(i)).len() as int] == slots[i]->Some_0,
        live(slots.update(i, None)) == live(slots).remove(live(slots.take(i)).len() as int),
    decreases slots.len(),
{
    let changed = slots.update(i, None);
    let front = slots.drop_last();
    let at = live(slots.take(i)).len() as int;
    if i == slots.len() - 1 {
        assert(changed.drop_last() =~= front);
        assert(slots.take(i) =~= front);
        assert(live(slots).remove(at) =~= live(front));
    } else {
        lemma_live_delete(front, i);
        assert(changed.drop_last() =~= front.update(i, None));
        assert(front.take(i) =~= slots.take(i));
        match slots.last() {
            Some(cell) => {
                assert(live(slots).remove(at) =~= live(front).remove(at).push(cell));
            },
            None => {},
        }
    }
}

/// The first free slot, or the number of slots if none is free.
pub open spec fn first_free(slots: Seq<Option<Seq<u8>>>) -> nat
    decreases slots.len(),
{
    if slots.len() == 0 {
        0
    } else if first_free(slots.drop_last()) < slots.len() - 1 {
        first_free(slots.drop_last())
    } else if slots.last() is None {
        (slots.len() - 1) as nat
    } else {
        slots.len()
    }
}

pub proof fn lemma_first_free(slots: Seq<Option<Seq<u8>>>)
    ensures
        first_free(slots) <= slots.len(),
        first_free(slots) < slots.len() ==> slots[first_free(slots) as int] is None,
        forall|i: int| 0 <= i < first_free(slots) ==> (#[trigger] slots[i]) is Some,
    decreases slots.len(),
{
    if slots.len() > 0 {
        lemma_first_free(slots.drop_last());
        assert forall|i: int| 0 <= i < first_free(slots) implies (#[trigger] slots[i]) is Some by {
            if i < slots.len() - 1 {
                assert(slots.drop_last()[i] is Some);
            }
        }
    }
}

/// `slots` with a cell put in the first free slot, or in a new one.
pub open spec fn placed(slots: Seq<Option<Seq<u8>>>, cell: Seq<u8>) -> Seq<Option<Seq<u8>>> {
    let at = first_free(slots) as int;
    if at < slots.len() {
        slots.update(at, Some(cell))
    } else {
        slots.push(Some(cell))
    }
}

/// What changing one slot does to the bytes the cells take.
pub proof fn lemma_cells_len_update(
    slots: Seq<Option<Seq<u8>>>,
    i: int,
    slot: Option<Seq<u8>>,
)
    requires
        0 <= i < slots.len(),
    ensures
        cells_len(slots.update(i, slot)) == cells_len(slots) - slot_bytes(slots[i]) + slot_bytes(
            slot,
        ),
        cells_len(slots) >= slot_bytes(slots[i]),
    decreases slots.len(),
{
    let changed = slots.update(i, slot);
    if i == slots.len() - 1 {
        assert(changed.drop_last() =~= slots.drop_last());
    } else {
        lemma_cells_len_update(slots.drop_last(), i, slot);
        assert(changed.drop_last() =~= slots.drop_last().update(i, slot));
    }
}

/// A page of cells.
pub struct SlottedPage {
    kind: PageType,
    next: PageId,
    slots: Vec<Option<Vec<u8>>>,
    used: usize,
}

/// The slots behind a vector of them.
pub open spec fn slot_models(slots: Seq<Option<Vec<u8>>>) -> Seq<Option<Seq<u8>>> {
    Seq::new(
        slots.len(),
        |i: int|
            match slots[i] {
                Some(cell) => Some(cell@),
                None => None,
            },
    )
}

impl View for SlottedPage {
    type V = PageModel;

    closed spec fn view(&self) -> PageModel {
        PageModel { kind: self.kind, next: self.next, slots: slot_models(self.slots@) }
    }
}

impl Clone for SlottedPage {
    fn clone(&self) -> (r: SlottedPage)
        ensures
            r@ == self@,
            self.wf() ==> r.wf(),
    {
        let mut slots: Vec<Option<Vec<u8>>> = Vec::new();
        let n: usize = self.slots.len();
        for i in 0..n
            invariant
                n == self.slots@.len(),
                slots@.len() == i,
                forall|k: int|
                    0 <= k < i ==> slot_models(slots@)[k] == #[trigger] slot_models(
                        self.slots@,
                    )[k],
        {
            let ghost before = slots@;
            slots.push(
                match &self.slots[i] {
                    Some(cell) => Some(slice_to_vec(cell.as_slice())),
                    None => None,
                },
            );
            proof {
                assert forall|k: int| 0 <= k < i + 1 implies slot_models(slots@)[k]
                    == #[trigger] slot_models(self.slots@)[k] by {
                    if k < i {
                        assert(slot_models(before)[k] == slot_models(self.slots@)[k]);
                        assert(slots@[k] == before[k]);
                    }
                }
            }
        }
        assert(slot_models(slots@) =~= slot_models(self.slots@));
        SlottedPage { kind: self.kind, next: self.next, slots, used: self.used }
    }
}

impl SlottedPage {
    /// Whether the page's cells fit, and their size is known.
    pub closed spec fn wf(&self) -> bool {
        self.used == used(self@.slots) && fits(self@.slots)
    }

    pub proof fn lemma_wf_fits(&self)
        requires
            self.wf(),
        ensures
            fits(self@.slots),
    {
    }

    /// A page of type `kind` without cells.
    pub fn new(kind: PageType) -> (page: SlottedPage)
        ensures
            page.wf(),
            page@ == (PageModel { kind, next: 0, slots: seq![] }),
    {
        let page = SlottedPage { kind, next: 0, slots: Vec::new(), used: PAGE_HEADER_LEN };
        assert(page@.slots =~= seq![]);
        page
    }

    /// The page that `bytes` hold; an `InvalidData` error if they are
    /// damaged.
    pub fn from_bytes(bytes: Vec<u8>) -> (r: IoResult<SlottedPage>)
        ensures
            match r {
                Ok(page) => page.wf() && parse_page(bytes@) == Some(page@),
                Err(e) => parse_page(bytes@) is None && e.kind == ErrorKind::InvalidData,
            },
    {
        if bytes.len() != USABLE_PAGE_SIZE {
            return Err(corrupt("a page of the wrong size"));
        }
        let kind: PageType = match PageType::from_code(bytes[0]) {
            Some(kind) => kind,
            None => {
                let code = decimal_text(bytes[0] as u64);
                return Err(corrupt(join(&["unknown page type ", code.as_str()]).as_str()));
            },
        };
        let whole: &[u8] = bytes.as_slice();
        let next: u64 = get_le(slice_subrange(whole, 1, 9));
        let count_bytes: &[u8] = slice_subrange(whole, 9, 11);
        proof {
            lemma_pow256_values();
            lemma_from_le_bound(count_bytes@);
        }
        let count: usize = get_le(count_bytes) as usize;
        if PAGE_HEADER_LEN + SLOT_LEN * count > USABLE_PAGE_SIZE {
            return Err(corrupt("a page's slot directory runs past its end"));
        }
        let mut slots: Vec<Option<Vec<u8>>> = Vec::new();
        let mut used_bytes: usize = PAGE_HEADER_LEN + SLOT_LEN * count;
        let ghost all = slots_of(bytes@);
        assert(slot_models(slots@) =~= all.take(0));
        for i in 0..count
            invariant
                whole@ == bytes@,
                bytes@.len() == USABLE_PAGE_SIZE,
                count == slot_count(bytes@),
                PAGE_HEADER_LEN + SLOT_LEN * count <= USABLE_PAGE_SIZE,
                all == slots_of(bytes@),
                slot_models(slots@) == all.take(i as int),
                used_bytes == PAGE_HEADER_LEN + SLOT_LEN * count + cells_len(all.take(i as int)),
                used_bytes <= USABLE_PAGE_SIZE,
                forall|j: int| 0 <= j < i ==> #[trigger] slot_ok(bytes@, j),
        {
            let at: usize = PAGE_HEADER_LEN + SLOT_LEN * i;
            let offset_bytes: &[u8] = slice_subrange(whole, at, at + 2);
            let len_bytes: &[u8] = slice_subrange(whole, at + 2, at + 4);
            proof {
                lemma_pow256_values();
                lemma_from_le_bound(offset_bytes@);
                lemma_from_le_bound(len_bytes@);
                lemma_cells_len_take(all, i as int);
            }
            let offset: usize = get_le(offset_bytes) as usize;
            let len: usize = get_le(len_bytes) as usize;
            let ghost before = slots@;
            if offset == 0 {
                slots.push(None);
            } else {
                if offset + len > USABLE_PAGE_SIZE {
                    assert(!slot_ok(bytes@, i as int));
                    return Err(corrupt("a cell runs past the end of its page"));
                }
                if len > USABLE_PAGE_SIZE - used_bytes {
                    return Err(corrupt("a page's cells overlap"));
                }
                slots.push(Some(slice_to_vec(slice_subrange(whole, offset, offset + len))));
                used_bytes = used_bytes + len;
            }
            proof {
                assert(slot_ok(bytes@, i as int));
                assert(all.take(i + 1) =~= all.take(i as int).push(all[i as int]));
                assert(slot_models(slots@) =~= slot_models(before).push(all[i as int]));
            }
        }
        assert(all.take(count as int) =~= all);
        Ok(SlottedPage { kind, next, slots, used: used_bytes })
    }

    /// The page's bytes.
    pub fn into_bytes(self) -> (bytes: Vec<u8>)
        requires
            self.wf(),
        ensures
            bytes@ == page_bytes(self@),
            bytes@.len() == USABLE_PAGE_SIZE,
            parse_page(bytes@) == Some(self@),
    {
        let ghost m = self@;
        let n: usize = self.slots.len();
        let start: usize = PAGE_HEADER_LEN + SLOT_LEN * n;
        proof {
            page_reads_back(m);
        }
        let mut bytes: Vec<u8> = Vec::new();
        bytes.push(self.kind.to_code());
        put_le(&mut bytes, self.next, 8);
        put_le(&mut bytes, n as u64, 2);
        assert(bytes@ =~= header_bytes(m));
        let mut cells: Vec<u8> = Vec::new();
        assert(m.slots.take(0) =~= seq![]);
        assert(bytes@ =~= header_bytes(m) + directory(m.slots.take(0), start as nat));
        for i in 0..n
            invariant
                m == self@,
                self.wf(),
                n == self.slots@.len(),
                start == PAGE_HEADER_LEN + SLOT_LEN * n,
                bytes@ == header_bytes(m) + directory(m.slots.take(i as int), start as nat),
                cells@ == packed(m.slots.take(i as int)),
        {
            proof {
                let t = m.slots.take(i + 1);
                assert(t.drop_last() =~= m.slots.take(i as int));
                assert(t.last() == m.slots[i as int]);
                lemma_packed_len(m.slots.take(i as int));
                lemma_cells_len_take(m.slots, i as int);
            }
            let ghost before = bytes@;
            let at: usize = start + cells.len();
            match &self.slots[i] {
                Some(cell) => {
                    put_le(&mut bytes, at as u64, 2);
                    put_le(&mut bytes, cell.len() as u64, 2);
                    cells.extend_from_slice(cell.as_slice());
                },
                None => {
                    put_le(&mut bytes, 0, 2);
                    put_le(&mut bytes, 0, 2);
                    assert(cells@ + Seq::<u8>::empty() =~= cells@);
                },
            }
            assert(bytes@ =~= before + slot_entry(
                m.slots[i as int],
                start as nat + cells_len(m.slots.take(i as int)),
            ));
            assert(bytes@ =~= header_bytes(m) + directory(m.slots.take(i + 1), start as nat));
        }
        assert(m.slots.take(n as int) =~= m.slots);
        proof {
            lemma_packed_len(m.slots);
            lemma_directory_len(m.slots, start as nat);
            lemma_le_len(m.next as nat, 8);
            lemma_le_len(m.slots.len(), 2);
        }
        bytes.extend_from_slice(cells.as_slice());
        let ghost content = bytes@;
        assert(content =~= header_bytes(m) + directory(m.slots, start as nat) + packed(m.slots));
        assert(bytes@.len() == used(m.slots));
        bytes.resize(USABLE_PAGE_SIZE, 0);
        assert(bytes@ =~= content + zeros(USABLE_PAGE_SIZE - used(m.slots)));
        bytes
    }

    pub fn page_type(&self) -> (kind: PageType)
        ensures
            kind == self@.kind,
    {
        self.kind
    }

    pub fn next_page(&self) -> (next: PageId)
        ensures
            next == self@.next,
    {
        self.next
    }

    pub fn set_next_page(&mut self, next: PageId)
        requires
            old(self).wf(),
        ensures
            final(self).wf(),
            final(self)@ == (PageModel { next, ..old(self)@ }),
    {
        self.next = next;
    }

    /// How many slots the page has, free or not.
    pub fn slot_count(&self) -> (n: usize)
        ensures
            n == self@.slots.len(),
    {
        self.slots.len()
    }

    /// The cell at `slot`, if there is one.
    pub fn get_cell(&self, slot: u16) -> (r: Option<&[u8]>)
        ensures
            match r {
                Some(cell) => slot < self@.slots.len() && self@.slots[slot as int] == Some(cell@),
                None => slot >= self@.slots.len() || self@.slots[slot as int] is None,
            },
    {
        if (slot as usize) < self.slots.len() {
            match &self.slots[slot as usize] {
                Some(cell) => Some(cell.as_slice()),
                None => None,
            }
        } else {
            None
        }
    }

    /// Whether a new cell of `len` bytes fits in a new slot.
    pub fn has_room_for(&self, len: usize) -> (r: bool)
        requires
            self.wf(),
        ensures
            r == (used(self@.slots) + SLOT_LEN + len <= USABLE_PAGE_SIZE),
    {
        USABLE_PAGE_SIZE - self.used >= SLOT_LEN && len <= USABLE_PAGE_SIZE - self.used - SLOT_LEN
    }

    /// Adds a cell in a new slot and returns the slot, or `None` if it
    /// doesn't fit.
    pub fn insert_cell(&mut self, cell: &[u8]) -> (r: Option<u16>)
        requires
            old(self).wf(),
        ensures
            final(self).wf(),
            match r {
                Some(slot) => slot == old(self)@.slots.len() && final(self)@ == (PageModel {
                    slots: old(self)@.slots.push(Some(cell@)),
                    ..old(self)@
                }) && fits(old(self)@.slots.push(Some(cell@))),
                None => final(self)@ == old(self)@ && !fits(old(self)@.slots.push(Some(cell@))),
            },
    {
        let ghost before = self@.slots;
        assert(before.push(Some(cell@)).drop_last() =~= before);
        if !self.has_room_for(cell.len()) {
            return None;
        }
        let slot: usize = self.slots.len();
        self.slots.push(Some(slice_to_vec(cell)));
        self.used = self.used + SLOT_LEN + cell.len();
        assert(self@.slots =~= before.push(Some(cell@)));
        Some(slot as u16)
    }

    /// Adds a cell in the first free slot, or else in a new one, and
    /// returns the slot, or `None` if it doesn't fit.
    pub fn insert_cell_reusing_slot(&mut self, cell: &[u8]) -> (r: Option<u16>)
        requires
            old(self).wf(),
        ensures
            final(self).wf(),
            match r {
                Some(slot) => slot == first_free(old(self)@.slots) && final(self)@ == (PageModel {
                    slots: placed(old(self)@.slots, cell@),
                    ..old(self)@
                }) && fits(placed(old(self)@.slots, cell@)),
                None => final(self)@ == old(self)@ && !fits(placed(old(self)@.slots, cell@)),
            },
    {
        let ghost before = self@.slots;
        let n: usize = self.slots.len();
        let mut at: usize = 0;
        while at < n && self.slots[at].is_some()
            invariant
                n == self.slots@.len(),
                at <= n,
                before == self@.slots,
                forall|i: int| 0 <= i < at ==> (#[trigger] before[i]) is Some,
            decreases n - at,
        {
            at = at + 1;
        }
        proof {
            lemma_first_free(before);
            let f = first_free(before) as int;
            if f < at {
                assert(before[f] is Some);
            }
            if at < f {
                assert(before[at as int] is Some);
            }
        }
        if at == n {
            return self.insert_cell(cell);
        }
        proof {
            lemma_cells_len_update(before, at as int, Some(cell@));
        }
        if cell.len() > USABLE_PAGE_SIZE - self.used {
            return None;
        }
        self.slots.set(at, Some(slice_to_vec(cell)));
        self.used = self.used + cell.len();
        assert(self@.slots =~= before.update(at as int, Some(cell@)));
        Some(at as u16)
    }

    /// Replaces the cell at `slot`; `false`, and nothing changed, if there
    /// is none or the new one doesn't fit.
    pub fn update_cell(&mut self, slot: u16, cell: &[u8]) -> (r: bool)
        requires
            old(self).wf(),
        ensures
            final(self).wf(),
            r == (slot < old(self)@.slots.len() && old(self)@.slots[slot as int] is Some && fits(
                old(self)@.slots.update(slot as int, Some(cell@)),
            )),
            final(self)@ == (if r {
                PageModel {
                    slots: old(self)@.slots.update(slot as int, Some(cell@)),
                    ..old(self)@
                }
            } else {
                old(self)@
            }),
    {
        let ghost before = self@.slots;
        let at: usize = slot as usize;
        if at >= self.slots.len() {
            return false;
        }
        let len: usize = match &self.slots[at] {
            Some(cell) => cell.len(),
            None => return false,
        };
        proof {
            lemma_cells_len_update(before, at as int, Some(cell@));
        }
        if cell.len() > USABLE_PAGE_SIZE - (self.used - len) {
            return false;
        }
        self.slots.set(at, Some(slice_to_vec(cell)));
        self.used = self.used - len + cell.len();
        assert(self@.slots =~= before.update(at as int, Some(cell@)));
        true
    }

    /// Frees the slot, if there is a cell in it.
    pub fn delete_cell(&mut self, slot: u16)
        requires
            old(self).wf(),
        ensures
            final(self).wf(),
            final(self)@ == (PageModel {
                slots: if slot < old(self)@.slots.len() {
                    old(self)@.slots.update(slot as int, None)
                } else {
                    old(self)@.slots
                },
                ..old(self)@
            }),
    {
        let ghost before = self@.slots;
        let at: usize = slot as usize;
        if at < self.slots.len() {
            let len: usize = match &self.slots[at] {
                Some(cell) => cell.len(),
                None => 0,
            };
            proof {
                lemma_cells_len_update(before, at as int, None);
            }
            self.slots.set(at, None);
            self.used = self.used - len;
            assert(self@.slots =~= before.update(at as int, None));
        }
    }

    /// Whether no cell lives on the page.
    pub fn is_empty(&self) -> (r: bool)
        ensures
            r == (forall|i: int| 0 <= i < self@.slots.len() ==> (#[trigger] self@.slots[i]) is None),
    {
        let n: usize = self.slots.len();
        for i in 0..n
            invariant
                n == self.slots@.len(),
                forall|j: int| 0 <= j < i ==> (#[trigger] self@.slots[j]) is None,
        {
            if self.slots[i].is_some() {
                assert(self@.slots[i as int] is Some);
                return false;
            }
        }
        true
    }

    /// The slots and cells that live, in slot order.
    pub fn iter_cells(&self) -> (r: Vec<(u16, &[u8])>)
        requires
            self.wf(),
        ensures
            r@.len() == live(self@.slots).len(),
            forall|i: int| 0 <= i < r@.len() ==> (#[trigger] r@[i]).1@ == live(self@.slots)[i],
            forall|i: int|
                0 <= i < r@.len() ==> (#[trigger] r@[i]).0 < self@.slots.len()
                    && self@.slots[r@[i].0 as int] == Some(r@[i].1@),
            forall|i: int|
                0 <= i < r@.len() ==> live(self@.slots.take((#[trigger] r@[i]).0 as int)).len()
                    == i,
    {
        let mut cells: Vec<(u16, &[u8])> = Vec::new();
        let n: usize = self.slots.len();
        let ghost all = self@.slots;
        assert(all.take(0) =~= seq![]);
        for i in 0..n
            invariant
                n == self.slots@.len(),
                all == self@.slots,
                self.wf(),
                cells@.len() == live(all.take(i as int)).len(),
                forall|k: int|
                    0 <= k < cells@.len() ==> (#[trigger] cells@[k]).1@ == live(
                        all.take(i as int),
                    )[k],
                forall|k: int|
                    0 <= k < cells@.len() ==> (#[trigger] cells@[k]).0 < i && all[cells@[k].0 as int]
                        == Some(cells@[k].1@),
                forall|k: int|
                    0 <= k < cells@.len() ==> live(all.take((#[trigger] cells@[k]).0 as int)).len()
                        == k,
        {
            proof {
                let t = all.take(i + 1);
                assert(t.drop_last() =~= all.take(i as int));
                assert(t.last() == all[i as int]);
            }
            match &self.slots[i] {
                Some(cell) => {
                    cells.push((i as u16, cell.as_slice()));
                },
                None => {},
            }
        }
        assert(all.take(n as int) =~= all);
        cells
    }
}

} // verus!

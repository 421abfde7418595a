//! The pages of a B-tree, taken apart and put together.

use super::branch::{
    branch_cell, decode_branch_entry, encode_branch_entry, lemma_branch_cell_len,
    MIN_BRANCH_ENTRY_LEN,
};
use super::key::MAX_KEY_LEN;
use super::leaf::{
    decode_index_entry, encode_index_entry, leaf_cell, lemma_leaf_cell_len, MIN_INDEX_ENTRY_LEN,
};
use super::tree::{branch_cells, leaf_cells, Entry};
use crate::decode::corrupt;
use crate::error::{ErrorKind, IoResult};
use crate::storage::page::{cells_len, fits, live, used, PageModel, PAGE_HEADER_LEN, SLOT_LEN};
use crate::storage::{PageId, PageType, RecordLocation, SlottedPage};
use vstd::prelude::*;
use vstd::slice::slice_to_vec;

verus! {

// ---------------------------------------------------------------------
// Sizes.

/// The sum of some sizes.
pub open spec fn total(sizes: Seq<nat>) -> nat
    decreases sizes.len(),
{
    if sizes.len() == 0 {
        0
    } else {
        total(sizes.drop_last()) + sizes.last()
    }
}

/// The lengths of some cells.
pub open spec fn lengths(cells: Seq<Seq<u8>>) -> Seq<nat> {
    Seq::new(cells.len(), |i: int| cells[i].len())
}

/// Slots that hold exactly these cells.
pub open spec fn all_live(cells: Seq<Seq<u8>>) -> Seq<Option<Seq<u8>>> {
    Seq::new(cells.len(), |i: int| Some(cells[i]))
}

/// The bytes of a page that cells of these sizes and their slots take.
pub open spec fn page_room(sizes: Seq<nat>) -> nat {
    (total(sizes) + SLOT_LEN * sizes.len()) as nat
}

/// What a page has room for.
pub const CAPACITY: usize = 8177;

pub proof fn lemma_total_step(sizes: Seq<nat>, i: int)
    requires
        0 <= i < sizes.len(),
    ensures
        total(sizes.take(i + 1)) == total(sizes.take(i)) + sizes[i],
        total(sizes.take(i + 1)) <= total(sizes),
    decreases sizes.len(),
{
    assert(sizes.take(i + 1).drop_last() =~= sizes.take(i));
    if i == sizes.len() - 1 {
        assert(sizes.take(i + 1) =~= sizes);
    } else {
        lemma_total_step(sizes.drop_last(), i);
        assert(sizes.drop_last().take(i + 1) =~= sizes.take(i + 1));
    }
}

pub proof fn lemma_total_parts(sizes: Seq<nat>, i: int)
    requires
        0 <= i <= sizes.len(),
    ensures
        total(sizes) == total(sizes.take(i)) + total(sizes.skip(i)),
    decreases sizes.len(),
{
    if i == sizes.len() {
        assert(sizes.take(i) =~= sizes);
        assert(sizes.skip(i).len() == 0);
    } else {
        lemma_total_parts(sizes.drop_last(), i);
        assert(sizes.drop_last().take(i) =~= sizes.take(i));
        assert(sizes.drop_last().skip(i) =~= sizes.skip(i).drop_last());
    }
}

pub proof fn lemma_total_at_least(sizes: Seq<nat>, least: nat)
    requires
        forall|i: int| 0 <= i < sizes.len() ==> #[trigger] sizes[i] >= least,
    ensures
        total(sizes) >= least * sizes.len(),
    decreases sizes.len(),
{
    if sizes.len() > 0 {
        lemma_total_at_least(sizes.drop_last(), least);
        let n = sizes.len() as int;
        assert(least * n == least * (n - 1) + least) by (nonlinear_arith);
    }
}

/// The cells that live take the bytes of all cells.
pub proof fn lemma_live_sizes(slots: Seq<Option<Seq<u8>>>)
    ensures
        total(lengths(live(slots))) == cells_len(slots),
        live(slots).len() <= slots.len(),
    decreases slots.len(),
{
    if slots.len() > 0 {
        lemma_live_sizes(slots.drop_last());
        let before = live(slots.drop_last());
        match slots.last() {
            Some(cell) => {
                assert(lengths(before.push(cell)).drop_last() =~= lengths(before));
            },
            None => {},
        }
    }
}

/// Slots that all hold a cell hold those cells.
pub proof fn lemma_all_live(cells: Seq<Seq<u8>>)
    ensures
        live(all_live(cells)) == cells,
        cells_len(all_live(cells)) == total(lengths(cells)),
        used(all_live(cells)) == PAGE_HEADER_LEN + page_room(lengths(cells)),
    decreases cells.len(),
{
    if cells.len() == 0 {
        assert(live(all_live(cells)) =~= cells);
    } else {
        lemma_all_live(cells.drop_last());
        assert(all_live(cells).drop_last() =~= all_live(cells.drop_last()));
        assert(lengths(cells).drop_last() =~= lengths(cells.drop_last()));
        assert(live(all_live(cells)) =~= cells);
    }
}

/// What a page holds fits on a page of its own.
pub proof fn lemma_live_fits(slots: Seq<Option<Seq<u8>>>)
    requires
        fits(slots),
    ensures
        page_room(lengths(live(slots))) <= CAPACITY,
{
    lemma_live_sizes(slots);
}

/// Where to split an overflowing page's entries, given their cell sizes, so
/// that both halves hold about the same number of bytes: the number of
/// entries before the point where the running total first reaches half.
pub fn byte_midpoint(sizes: &Vec<usize>) -> (mid: usize)
    requires
        sizes@.len() > 0,
        2 * total(Seq::new(sizes@.len(), |i: int| sizes@[i] as nat)) <= usize::MAX,
    ensures
        1 <= mid <= sizes@.len(),
        ({
            let s = Seq::new(sizes@.len(), |i: int| sizes@[i] as nat);
            &&& 2 * total(s.take(mid as int)) >= total(s)
            &&& forall|j: int| 1 <= j < mid ==> 2 * total(#[trigger] s.take(j)) < total(s)
        }),
{
    let ghost s = Seq::new(sizes@.len(), |i: int| sizes@[i] as nat);
    let n: usize = sizes.len();
    let mut sum: usize = 0;
    assert(s.take(0) =~= seq![]);
    for i in 0..n
        invariant
            n == sizes@.len(),
            s == Seq::new(sizes@.len(), |i: int| sizes@[i] as nat),
            2 * total(s) <= usize::MAX,
            sum == total(s.take(i as int)),
    {
        proof {
            lemma_total_step(s, i as int);
        }
        sum = sum + sizes[i];
    }
    assert(s.take(n as int) =~= s);
    let mut running: usize = 0;
    let mut i: usize = 0;
    assert(s.take(0) =~= seq![]);
    while i < n - 1
        invariant
            n == sizes@.len(),
            n > 0,
            i <= n - 1,
            s == Seq::new(sizes@.len(), |i: int| sizes@[i] as nat),
            2 * total(s) <= usize::MAX,
            sum == total(s),
            running == total(s.take(i as int)),
            forall|j: int| 1 <= j <= i ==> 2 * total(#[trigger] s.take(j)) < total(s),
        decreases n - i,
    {
        proof {
            lemma_total_step(s, i as int);
        }
        running = running + sizes[i];
        i = i + 1;
        if running * 2 >= sum {
            return i;
        }
    }
    assert(s.take(n as int) =~= s);
    n
}

/// Both halves of an overflowing leaf fit, and neither is empty.
pub proof fn lemma_leaf_halves(sizes: Seq<nat>, mid: int)
    requires
        forall|i: int| 0 <= i < sizes.len() ==> 10 <= #[trigger] sizes[i] <= MAX_KEY_LEN + 10,
        CAPACITY < page_room(sizes) <= CAPACITY + MAX_KEY_LEN + 14,
        1 <= mid <= sizes.len(),
        2 * total(sizes.take(mid)) >= total(sizes),
        forall|j: int| 1 <= j < mid ==> 2 * total(#[trigger] sizes.take(j)) < total(sizes),
    ensures
        mid < sizes.len(),
        page_room(sizes.take(mid)) <= CAPACITY,
        page_room(sizes.skip(mid)) <= CAPACITY,
{
    let n = sizes.len();
    lemma_total_at_least(sizes, 10);
    lemma_total_parts(sizes, mid);
    lemma_total_step(sizes, mid - 1);
    assert(sizes.take(mid - 1 + 1) =~= sizes.take(mid));
    if mid == 1 {
        assert(sizes.take(0).len() == 0);
    } else {
        assert(2 * total(sizes.take(mid - 1)) < total(sizes));
    }
    if mid == n {
        assert(sizes.take(mid) =~= sizes);
    }
}

/// Both halves of an overflowing branch fit, and neither is empty, when the
/// entry before the midpoint moves up.
pub proof fn lemma_branch_halves(sizes: Seq<nat>, mid: int)
    requires
        forall|i: int| 0 <= i < sizes.len() ==> 8 <= #[trigger] sizes[i] <= MAX_KEY_LEN + 8,
        CAPACITY < page_room(sizes) <= CAPACITY + MAX_KEY_LEN + 12,
        1 <= mid <= sizes.len(),
        2 * total(sizes.take(mid)) >= total(sizes),
        forall|j: int| 1 <= j < mid ==> 2 * total(#[trigger] sizes.take(j)) < total(sizes),
    ensures
        2 <= mid < sizes.len(),
        page_room(sizes.take(mid - 1)) <= CAPACITY,
        page_room(sizes.skip(mid)) <= CAPACITY,
{
    let n = sizes.len();
    lemma_total_at_least(sizes, 8);
    lemma_total_parts(sizes, mid);
    lemma_total_step(sizes, mid - 1);
    assert(sizes.take(mid - 1 + 1) =~= sizes.take(mid));
    if mid == 1 {
        assert(sizes.take(0).len() == 0);
    } else {
        assert(2 * total(sizes.take(mid - 1)) < total(sizes));
    }
    if mid == n {
        assert(sizes.take(mid) =~= sizes);
    }
}

// ---------------------------------------------------------------------
// Leaves.

/// The entries behind a vector of them.
pub open spec fn entry_models(entries: Seq<(Vec<u8>, RecordLocation)>) -> Seq<Entry> {
    Seq::new(entries.len(), |i: int| (entries[i].0@, entries[i].1))
}

/// The cell sizes of a leaf's entries.
pub open spec fn leaf_sizes(entries: Seq<Entry>) -> Seq<nat> {
    Seq::new(entries.len(), |i: int| entries[i].0.len() + 10)
}

pub proof fn lemma_leaf_sizes(entries: Seq<Entry>)
    ensures
        lengths(leaf_cells(entries)) == leaf_sizes(entries),
{
    assert forall|i: int| 0 <= i < entries.len() implies lengths(leaf_cells(entries))[i]
        == leaf_sizes(entries)[i] by {
        lemma_leaf_cell_len(entries[i].0, entries[i].1);
    }
    assert(lengths(leaf_cells(entries)) =~= leaf_sizes(entries));
}

/// The entries of a leaf page; an `InvalidData` error if a cell is too
/// short for one.
pub fn read_leaf(page: &SlottedPage) -> (r: IoResult<Vec<(Vec<u8>, RecordLocation)>>)
    requires
        page.wf(),
    ensures
        match r {
            Ok(entries) => live(page@.slots) == leaf_cells(entry_models(entries@)),
            Err(e) => e.kind == ErrorKind::InvalidData && forall|entries: Seq<Entry>|
                live(page@.slots) != #[trigger] leaf_cells(entries),
        },
{
    let cells = page.iter_cells();
    let n: usize = cells.len();
    let ghost all = live(page@.slots);
    let mut entries: Vec<(Vec<u8>, RecordLocation)> = Vec::new();
    for i in 0..n
        invariant
            n == cells@.len() == all.len(),
            all == live(page@.slots),
            forall|k: int| 0 <= k < n ==> (#[trigger] cells@[k]).1@ == all[k],
            entries@.len() == i,
            forall|k: int|
                0 <= k < i ==> all[k] == leaf_cell((#[trigger] entries@[k]).0@, entries@[k].1),
    {
        let cell: &[u8] = cells[i].1;
        if cell.len() < MIN_INDEX_ENTRY_LEN {
            proof {
                assert forall|entries: Seq<Entry>| all != #[trigger] leaf_cells(entries) by {
                    if all == leaf_cells(entries) {
                        assert(leaf_cells(entries)[i as int] == all[i as int]);
                        lemma_leaf_cell_len(entries[i as int].0, entries[i as int].1);
                    }
                }
            }
            return Err(corrupt("an index leaf's cell is too short"));
        }
        let (key, loc) = decode_index_entry(cell);
        entries.push((slice_to_vec(key), loc));
    }
    assert(all =~= leaf_cells(entry_models(entries@)));
    Ok(entries)
}

/// A leaf page with these entries, `None` if they don't fit.
pub fn build_leaf_page(entries: &Vec<(Vec<u8>, RecordLocation)>, next: PageId) -> (r: Option<
    SlottedPage,
>)
    ensures
        match r {
            Some(page) => page.wf() && page@ == (PageModel {
                kind: PageType::IndexLeaf,
                next,
                slots: all_live(leaf_cells(entry_models(entries@))),
            }),
            None => page_room(leaf_sizes(entry_models(entries@))) > CAPACITY,
        },
{
    let ghost models = entry_models(entries@);
    let ghost cells = leaf_cells(models);
    let mut page = SlottedPage::new(PageType::IndexLeaf);
    page.set_next_page(next);
    let n: usize = entries.len();
    assert(page@.slots =~= all_live(cells.take(0)));
    for i in 0..n
        invariant
            n == entries@.len(),
            models == entry_models(entries@),
            cells == leaf_cells(models),
            page.wf(),
            page@ == (PageModel {
                kind: PageType::IndexLeaf,
                next,
                slots: all_live(cells.take(i as int)),
            }),
    {
        let cell = encode_index_entry(entries[i].0.as_slice(), entries[i].1);
        proof {
            assert(cell@ == cells[i as int]);
            assert(all_live(cells.take(i as int)).push(Some(cell@)) =~= all_live(
                cells.take(i + 1),
            ));
        }
        if page.insert_cell(cell.as_slice()).is_none() {
            proof {
                lemma_all_live(cells.take(i + 1));
                lemma_leaf_sizes(models);
                let sizes = leaf_sizes(models);
                lemma_total_step(sizes, i as int);
                assert(lengths(cells.take(i + 1)) =~= sizes.take(i + 1));
            }
            return None;
        }
    }
    assert(cells.take(n as int) =~= cells);
    Some(page)
}

// ---------------------------------------------------------------------
// Branches.

/// The separators behind a vector of branch entries.
pub open spec fn branch_keys(entries: Seq<(Vec<u8>, PageId)>) -> Seq<Seq<u8>> {
    Seq::new(entries.len(), |i: int| entries[i].0@)
}

/// The kids behind a vector of branch entries and the rightmost one.
pub open spec fn branch_kids(entries: Seq<(Vec<u8>, PageId)>, rightmost: PageId) -> Seq<PageId> {
    Seq::new(
        entries.len() + 1,
        |i: int|
            if i < entries.len() {
                entries[i].1
            } else {
                rightmost
            },
    )
}

/// The cell sizes of a branch's separators.
pub open spec fn branch_sizes(keys: Seq<Seq<u8>>) -> Seq<nat> {
    Seq::new(keys.len(), |i: int| keys[i].len() + 8)
}

pub proof fn lemma_branch_sizes(keys: Seq<Seq<u8>>, kids: Seq<PageId>)
    ensures
        lengths(branch_cells(keys, kids)) == branch_sizes(keys),
{
    assert forall|i: int| 0 <= i < keys.len() implies lengths(branch_cells(keys, kids))[i]
        == branch_sizes(keys)[i] by {
        lemma_branch_cell_len(keys[i], kids[i]);
    }
    assert(lengths(branch_cells(keys, kids)) =~= branch_sizes(keys));
}

/// The entries of a branch page; an `InvalidData` error if a cell is too
/// short for one.
pub fn read_branch(page: &SlottedPage) -> (r: IoResult<Vec<(Vec<u8>, PageId)>>)
    requires
        page.wf(),
    ensures
        match r {
            Ok(entries) => live(page@.slots) == branch_cells(
                branch_keys(entries@),
                branch_kids(entries@, page@.next),
            ),
            Err(e) => e.kind == ErrorKind::InvalidData && forall|
                keys: Seq<Seq<u8>>,
                kids: Seq<PageId>,
            |
                live(page@.slots) != #[trigger] branch_cells(keys, kids),
        },
{
    let cells = page.iter_cells();
    let n: usize = cells.len();
    let ghost all = live(page@.slots);
    let mut entries: Vec<(Vec<u8>, PageId)> = Vec::new();
    for i in 0..n
        invariant
            n == cells@.len() == all.len(),
            all == live(page@.slots),
            forall|k: int| 0 <= k < n ==> (#[trigger] cells@[k]).1@ == all[k],
            entries@.len() == i,
            forall|k: int|
                0 <= k < i ==> all[k] == branch_cell((#[trigger] entries@[k]).0@, entries@[k].1),
    {
        let cell: &[u8] = cells[i].1;
        if cell.len() < MIN_BRANCH_ENTRY_LEN {
            proof {
                assert forall|keys: Seq<Seq<u8>>, kids: Seq<PageId>|
                    all != #[trigger] branch_cells(keys, kids) by {
                    if all == branch_cells(keys, kids) {
                        assert(branch_cells(keys, kids)[i as int] == all[i as int]);
                        lemma_branch_cell_len(keys[i as int], kids[i as int]);
                    }
                }
            }
            return Err(corrupt("an index branch's cell is too short"));
        }
        let (key, child) = decode_branch_entry(cell);
        entries.push((slice_to_vec(key), child));
    }
    assert(all =~= branch_cells(branch_keys(entries@), branch_kids(entries@, page@.next)));
    Ok(entries)
}

/// A branch page with these entries, `None` if they don't fit.
pub fn build_branch_page(entries: &Vec<(Vec<u8>, PageId)>, rightmost: PageId) -> (r: Option<
    SlottedPage,
>)
    ensures
        match r {
            Some(page) => page.wf() && page@ == (PageModel {
                kind: PageType::IndexBranch,
                next: rightmost,
                slots: all_live(
                    branch_cells(branch_keys(entries@), branch_kids(entries@, rightmost)),
                ),
            }),
            None => page_room(branch_sizes(branch_keys(entries@))) > CAPACITY,
        },
{
    let ghost keys = branch_keys(entries@);
    let ghost kids = branch_kids(entries@, rightmost);
    let ghost cells = branch_cells(keys, kids);
    let mut page = SlottedPage::new(PageType::IndexBranch);
    page.set_next_page(rightmost);
    let n: usize = entries.len();
    assert(page@.slots =~= all_live(cells.take(0)));
    for i in 0..n
        invariant
            n == entries@.len(),
            keys == branch_keys(entries@),
            kids == branch_kids(entries@, rightmost),
            cells == branch_cells(keys, kids),
            page.wf(),
            page@ == (PageModel {
                kind: PageType::IndexBranch,
                next: rightmost,
                slots: all_live(cells.take(i as int)),
            }),
    {
        let cell = encode_branch_entry(entries[i].0.as_slice(), entries[i].1);
        proof {
            assert(cell@ == cells[i as int]);
            assert(all_live(cells.take(i as int)).push(Some(cell@)) =~= all_live(
                cells.take(i + 1),
            ));
        }
        if page.insert_cell(cell.as_slice()).is_none() {
            proof {
                lemma_all_live(cells.take(i + 1));
                lemma_branch_sizes(keys, kids);
                let sizes = branch_sizes(keys);
                lemma_total_step(sizes, i as int);
                assert(lengths(cells.take(i + 1)) =~= sizes.take(i + 1));
            }
            return None;
        }
    }
    assert(cells.take(n as int) =~= cells);
    Some(page)
}

} // verus!

//! Cells on pages.

use crate::bytes::lemma_le_len;
use crate::storage::page::{
    cells_len, directory, first_free, fits, header_bytes, lemma_first_free, live, packed, placed,
    used, PageModel,
};
use vstd::prelude::*;

verus! {

/// Cells fit on a page exactly if the header, the directory and the cells
/// themselves take no more than the bytes that a page has.
pub proof fn a_page_is_full_when_its_bytes_are_used(m: PageModel, at: nat)
    ensures
        fits(m.slots) <==> header_bytes(m).len() + directory(m.slots, at).len() + packed(
            m.slots,
        ).len() <= 8188,
{
    lemma_le_len(m.next as nat, 8);
    lemma_le_len(m.slots.len(), 2);
    lemma_directory(m.slots, at);
    lemma_packed(m.slots);
}

proof fn lemma_directory(slots: Seq<Option<Seq<u8>>>, at: nat)
    ensures
        directory(slots, at).len() == 4 * slots.len(),
    decreases slots.len(),
{
    if slots.len() > 0 {
        let front = slots.drop_last();
        lemma_directory(front, at);
        lemma_le_len(at + cells_len(front), 2);
        lemma_le_len(0, 2);
        match slots.last() {
            Some(cell) => {
                lemma_le_len(cell.len(), 2);
            },
            None => {},
        }
    }
}

proof fn lemma_packed(slots: Seq<Option<Seq<u8>>>)
    ensures
        packed(slots).len() == cells_len(slots),
    decreases slots.len(),
{
    if slots.len() > 0 {
        lemma_packed(slots.drop_last());
    }
}

/// A cell goes into the first free slot, or into a new one if none is free, and
/// every other slot is as it was.
pub proof fn a_cell_goes_into_a_free_slot(slots: Seq<Option<Seq<u8>>>, cell: Seq<u8>, i: int)
    requires
        0 <= i < slots.len(),
    ensures
        slots[i] is Some ==> placed(slots, cell)[i] == slots[i],
        slots[i] is None && (forall|j: int| 0 <= j < i ==> (#[trigger] slots[j]) is Some) ==> placed(
            slots,
            cell,
        ) == slots.update(i, Some(cell)),
        (forall|j: int| 0 <= j < slots.len() ==> (#[trigger] slots[j]) is Some) ==> placed(
            slots,
            cell,
        ) == slots.push(Some(cell)),
{
    lemma_first_free(slots);
    let at = first_free(slots) as int;
    if slots[i] is None && forall|j: int| 0 <= j < i ==> (#[trigger] slots[j]) is Some {
        if at < i {
            assert(slots[at] is Some);
        } else if at > i {
            assert(slots[i] is Some);
        }
    }
    if forall|j: int| 0 <= j < slots.len() ==> (#[trigger] slots[j]) is Some {
        if at < slots.len() {
            assert(slots[at] is Some);
        }
    }
}

/// The cells that live are those in slots that aren't free, in order, and they
/// are what the page's cells are packed from.
pub proof fn the_cells_that_live_are_in_slots(slots: Seq<Option<Seq<u8>>>)
    ensures
        live(slots) == slots.filter(|slot: Option<Seq<u8>>| slot is Some).map_values(
            |slot: Option<Seq<u8>>| slot->Some_0,
        ),
        packed(slots) == live(slots).flatten(),
    decreases slots.len(),
{
    reveal(Seq::filter);
    let test = |slot: Option<Seq<u8>>| slot is Some;
    let cell = |slot: Option<Seq<u8>>| slot->Some_0;
    if slots.len() > 0 {
        let front = slots.drop_last();
        the_cells_that_live_are_in_slots(front);
        match slots.last() {
            Some(bytes) => {
                assert(front.filter(test).push(slots.last()).map_values(cell) =~= front.filter(
                    test,
                ).map_values(cell).push(bytes));
                let before = live(front);
                assert(live(slots) == before.push(bytes));
                assert(before.push(bytes).drop_last() =~= before);
                before.push(bytes).lemma_flatten_and_flatten_alt_are_equivalent();
                before.lemma_flatten_and_flatten_alt_are_equivalent();
                assert(before.push(bytes).flatten_alt() =~= before.flatten_alt() + bytes);
            },
            None => {},
        }
    } else {
        assert(live(slots) =~= Seq::<Seq<u8>>::empty());
        assert(packed(slots) =~= live(slots).flatten());
    }
}

/// A page that holds one more cell has that much less room, and the room of a
/// slot.
pub proof fn a_cell_takes_its_bytes_and_a_slot(slots: Seq<Option<Seq<u8>>>, cell: Seq<u8>)
    ensures
        used(slots.push(Some(cell))) == used(slots) + cell.len() + 4,
        used(slots.push(None)) == used(slots) + 4,
        used(Seq::empty()) == 11,
{
    assert(slots.push(Some(cell)).drop_last() =~= slots);
    assert(slots.push(None).drop_last() =~= slots);
}

} // verus!

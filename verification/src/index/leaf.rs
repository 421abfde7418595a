//! Leaf-page cells.

use crate::bytes::{
    get_le, le_bytes, lemma_from_le_bound, lemma_le_len, lemma_le_of_from_le, lemma_le_roundtrip,
    lemma_pow256_values, put_le,
};
use crate::storage::RecordLocation;
use vstd::prelude::*;
use vstd::slice::slice_subrange;

verus! {

/// The shortest leaf cell: an empty key and the location.
pub const MIN_INDEX_ENTRY_LEN: usize = 10;

/// A leaf-page cell: `[key][u64 page][u16 slot]`. The key comes first and
/// has no length prefix: the slot directory already records the cell's
/// length, so the key is everything but the last 10 bytes.
pub open spec fn leaf_cell(key: Seq<u8>, loc: RecordLocation) -> Seq<u8> {
    key + le_bytes(loc.page as nat, 8) + le_bytes(loc.slot as nat, 2)
}

pub proof fn lemma_leaf_cell_len(key: Seq<u8>, loc: RecordLocation)
    ensures
        leaf_cell(key, loc).len() == key.len() + 10,
{
    lemma_le_len(loc.page as nat, 8);
    lemma_le_len(loc.slot as nat, 2);
}

/// A cell's entry reads back from it, and from no other entry's.
pub proof fn leaf_cells_are_distinct(a: Seq<u8>, x: RecordLocation, b: Seq<u8>, y: RecordLocation)
    requires
        leaf_cell(a, x) == leaf_cell(b, y),
    ensures
        a == b,
        x == y,
{
    lemma_leaf_cell_len(a, x);
    lemma_leaf_cell_len(b, y);
    let n = a.len() as int;
    let cell = leaf_cell(a, x);
    lemma_le_len(x.page as nat, 8);
    lemma_le_len(y.page as nat, 8);
    lemma_le_len(x.slot as nat, 2);
    lemma_le_len(y.slot as nat, 2);
    assert(cell.take(n) =~= a);
    assert(cell.take(n) =~= b);
    lemma_pow256_values();
    lemma_le_roundtrip(x.page as nat, 8);
    lemma_le_roundtrip(y.page as nat, 8);
    lemma_le_roundtrip(x.slot as nat, 2);
    lemma_le_roundtrip(y.slot as nat, 2);
    assert(cell.subrange(n, n + 8) =~= le_bytes(x.page as nat, 8));
    assert(cell.subrange(n, n + 8) =~= le_bytes(y.page as nat, 8));
    assert(cell.subrange(n + 8, n + 10) =~= le_bytes(x.slot as nat, 2));
    assert(cell.subrange(n + 8, n + 10) =~= le_bytes(y.slot as nat, 2));
}

/// The cell of an entry.
pub fn encode_index_entry(key: &[u8], location: RecordLocation) -> (cell: Vec<u8>)
    ensures
        cell@ == leaf_cell(key@, location),
{
    let mut buffer: Vec<u8> = Vec::new();
    buffer.extend_from_slice(key);
    put_le(&mut buffer, location.page, 8);
    put_le(&mut buffer, location.slot as u64, 2);
    assert(buffer@ =~= leaf_cell(key@, location));
    buffer
}

/// The entry of a cell.
pub fn decode_index_entry(bytes: &[u8]) -> (r: (&[u8], RecordLocation))
    requires
        bytes@.len() >= MIN_INDEX_ENTRY_LEN,
    ensures
        bytes@ == leaf_cell(r.0@, r.1),
{
    let n: usize = bytes.len();
    let (key, loc) = bytes.split_at(n - 10);
    let page_bytes: &[u8] = slice_subrange(loc, 0, 8);
    let slot_bytes: &[u8] = slice_subrange(loc, 8, 10);
    proof {
        lemma_pow256_values();
        lemma_from_le_bound(slot_bytes@);
        lemma_le_of_from_le(page_bytes@);
        lemma_le_of_from_le(slot_bytes@);
    }
    let page: u64 = get_le(page_bytes);
    let slot: u16 = get_le(slot_bytes) as u16;
    assert(bytes@ =~= key@ + page_bytes@ + slot_bytes@);
    (key, RecordLocation { page, slot })
}

} // verus!

//! Branch-page cells.

use crate::bytes::{
    get_le, le_bytes, lemma_le_len, lemma_le_of_from_le, lemma_le_roundtrip, lemma_pow256_values,
    put_le,
};
use crate::storage::PageId;
use vstd::prelude::*;

verus! {

/// The shortest branch cell: an empty key and the child.
pub const MIN_BRANCH_ENTRY_LEN: usize = 8;

/// A branch-page cell: `[separator key][u64 child]`. Like a leaf cell, the
/// key has no length prefix: it's everything but the last 8 bytes.
pub open spec fn branch_cell(key: Seq<u8>, child: PageId) -> Seq<u8> {
    key + le_bytes(child as nat, 8)
}

pub proof fn lemma_branch_cell_len(key: Seq<u8>, child: PageId)
    ensures
        branch_cell(key, child).len() == key.len() + 8,
{
    lemma_le_len(child as nat, 8);
}

/// A cell's entry reads back from it, and from no other entry's.
pub proof fn branch_cells_are_distinct(a: Seq<u8>, x: PageId, b: Seq<u8>, y: PageId)
    requires
        branch_cell(a, x) == branch_cell(b, y),
    ensures
        a == b,
        x == y,
{
    lemma_branch_cell_len(a, x);
    lemma_branch_cell_len(b, y);
    let n = a.len() as int;
    let cell = branch_cell(a, x);
    lemma_le_len(x as nat, 8);
    lemma_le_len(y as nat, 8);
    assert(cell.take(n) =~= a);
    assert(cell.take(n) =~= b);
    lemma_pow256_values();
    lemma_le_roundtrip(x as nat, 8);
    lemma_le_roundtrip(y as nat, 8);
    assert(cell.subrange(n, n + 8) =~= le_bytes(x as nat, 8));
    assert(cell.subrange(n, n + 8) =~= le_bytes(y as nat, 8));
}

/// The cell of a separator and the child below it.
pub fn encode_branch_entry(key: &[u8], child: PageId) -> (cell: Vec<u8>)
    ensures
        cell@ == branch_cell(key@, child),
{
    let mut buffer: Vec<u8> = Vec::new();
    buffer.extend_from_slice(key);
    put_le(&mut buffer, child, 8);
    assert(buffer@ =~= branch_cell(key@, child));
    buffer
}

/// The separator and child of a cell.
pub fn decode_branch_entry(bytes: &[u8]) -> (r: (&[u8], PageId))
    requires
        bytes@.len() >= MIN_BRANCH_ENTRY_LEN,
    ensures
        bytes@ == branch_cell(r.0@, r.1),
{
    let (key, child) = bytes.split_at(bytes.len() - 8);
    proof {
        lemma_le_of_from_le(child@);
    }
    assert(bytes@ =~= key@ + child@);
    (key, get_le(child))
}

} // verus!

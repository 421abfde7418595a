//! Making a batch of page writes survive a crash.

mod noop;
mod wal;

pub use noop::NoopDurability;
pub use wal::{
    batch_body, batches_images, checksum_before_the_tail_is_an_error, crc32, decode_body,
    decode_pending, decode_records, encode_header, encode_record, entries_bytes, images,
    logged_batches_read_back, pending_images, record_bytes, records_bytes, borrowed_images,
    tail_with_a_bad_checksum_is_ignored, torn_tail_is_ignored, wal_bytes, wal_header, writable_batch,
    WalDurability,
    WAL_HEADER_LEN, WAL_VERSION,
};

use crate::error::IoResult;
use crate::storage::PageId;
use vstd::prelude::*;

verus! {

/// Records page images so that a crash loses none of a batch that was
/// logged. `WalDurability` is the real implementation: an append-only log
/// separate from the main data file, holding page images, the full
/// after-state of every page a batch changed. `log` records one batch's
/// images before any of those pages reaches the main file; once they have,
/// `checkpoint` empties the log. Rewriting a page image is idempotent, so
/// a batch that already fully reached the main file can be replayed
/// harmlessly.
pub trait Durability {
    /// Whether the batch `pages` is one that `log` takes.
    spec fn can_log(&self, pages: Seq<(PageId, Seq<u8>)>) -> bool;

    /// The page images that a recovery would restore, oldest first; `None`
    /// when the log is damaged.
    spec fn pending(&self) -> Option<Seq<(PageId, Seq<u8>)>>;

    /// Durably records one batch's changed pages, each with its number, as
    /// a single unit: after a crash, recovery sees either all of them or
    /// none.
    fn log(&mut self, pages: &[(PageId, &[u8])]) -> (r: IoResult<()>)
        requires
            old(self).can_log(borrowed_images(pages@)),
    ;

    /// Marks every batch logged so far as durably reflected in the main
    /// file: safe to forget, since replaying it is no longer necessary.
    fn checkpoint(&mut self) -> (r: IoResult<()>)
        ensures
            r is Ok ==> final(self).pending() == Some(Seq::<(PageId, Seq<u8>)>::empty()),
    ;
}

} // verus!

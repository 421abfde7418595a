//! Ordered maps from byte-string keys to record locations.

pub mod branch;
pub mod btree;
pub mod entries;
pub mod graft;
pub mod in_memory;
pub mod key;
pub mod leaf;
pub mod node;
pub mod part;
pub mod range;
pub mod reach;
pub mod runs;
pub mod shape;
pub mod sorting;
pub mod tree;
pub mod walk;

pub use btree::BTreeIndex;
pub use in_memory::InMemoryIndex;
pub use range::KeyRange;

use crate::error::IoResult;
use crate::storage::{PageId, PageStore, RecordLocation};
use entries::{find, in_range, inserted, removed};
use node::entry_models;
use tree::Entry;
use vstd::prelude::*;

verus! {

/// An ordered map from byte-string keys to record locations. Keys are
/// compared byte by byte; the key module builds them, so an implementation
/// needs to know nothing about documents.
///
/// `InMemoryIndex` ignores the store entirely. `BTreeIndex` is the
/// disk-backed implementation, for the primary index and for every
/// secondary index.
pub trait Index: Sized {
    /// The entries, in ascending key order, each key once; `None` if what
    /// the index is made of, on `pages`, is damaged.
    spec fn entries(&self, pages: Map<PageId, Seq<u8>>) -> Option<Seq<Entry>>;

    /// Makes `key` stand for `loc`.
    fn insert<S: PageStore>(&mut self, store: &mut S, key: &[u8], loc: RecordLocation) -> (r:
        IoResult<()>)
        requires
            old(store).wf(),
        ensures
            final(store).wf(),
            r is Ok ==> (old(self).entries(old(store).pages()) matches Some(e) ==> final(self).entries(final(store).pages()) == Some(inserted(e, key@, loc))),
    ;

    /// Takes `key` out, if it is there.
    fn remove<S: PageStore>(&mut self, store: &mut S, key: &[u8]) -> (r: IoResult<()>)
        requires
            old(store).wf(),
        ensures
            final(store).wf(),
            r is Ok ==> (old(self).entries(old(store).pages()) matches Some(e) ==> final(self).entries(final(store).pages()) == Some(removed(e, key@))),
    ;

    /// What `key` stands for.
    fn lookup<S: PageStore>(&self, store: &S, key: &[u8]) -> (r: IoResult<Option<RecordLocation>>)
        requires
            store.wf(),
        ensures
            r matches Ok(found) ==> (self.entries(store.pages()) matches Some(e) ==> found == find(
                e,
                key@,
            )),
    ;

    /// Every entry with a key in `range`, in ascending key order.
    fn range<S: PageStore>(&self, store: &S, range: &KeyRange) -> (r: IoResult<
        Vec<(Vec<u8>, RecordLocation)>,
    >)
        requires
            store.wf(),
        ensures
            r matches Ok(found) ==> (self.entries(store.pages()) matches Some(e) ==> entry_models(found@)
                == in_range(e, range@)),
    ;

    /// Every entry, in ascending key order.
    fn scan<S: PageStore>(&self, store: &S) -> (r: IoResult<Vec<(Vec<u8>, RecordLocation)>>)
        requires
            store.wf(),
        ensures
            r matches Ok(found) ==> (self.entries(store.pages()) matches Some(e) ==> entry_models(found@)
                == e),
    ;
}

} // verus!

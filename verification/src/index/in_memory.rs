//! An index that lives in memory only.

use super::entries::{
    find, in_range, inserted, key_position, lemma_in_range_push, lemma_inserted_sorted,
    lemma_key_position_is, lemma_removed_sorted, removed, sorted,
};
use super::node::entry_models;
use super::range::KeyRange;
use super::tree::Entry;
use super::Index;
use crate::bytes::bytes_equal;
use crate::error::IoResult;
use crate::order::{bytes_less, bytes_lt};
use crate::storage::{PageId, PageStore, RecordLocation};
use vstd::prelude::*;
use vstd::slice::slice_to_vec;

verus! {

/// Sorted entries in a vector: the non-durable stand-in for `BTreeIndex`.
/// Ignores the store completely; useful without real storage, and as the
/// reference `BTreeIndex` is checked against.
pub struct InMemoryIndex {
    held: Vec<(Vec<u8>, RecordLocation)>,
}

impl Default for InMemoryIndex {
    fn default() -> (index: InMemoryIndex)
        ensures
            index.held_entries() == Seq::<Entry>::empty(),
            index.wf(),
    {
        let index = InMemoryIndex { held: Vec::new() };
        assert(index.held_entries() =~= Seq::<Entry>::empty());
        index
    }
}

impl InMemoryIndex {
    /// The entries, in order.
    pub closed spec fn held_entries(&self) -> Seq<Entry> {
        entry_models(self.held@)
    }

    /// Whether the entries are in order.
    pub open spec fn wf(&self) -> bool {
        sorted(self.held_entries())
    }

    /// Where `key` stands, or would stand.
    fn position(&self, key: &[u8]) -> (at: usize)
        ensures
            at == key_position(self.held_entries(), key@),
            at <= self.held@.len(),
    {
        let ghost models = self.held_entries();
        let n: usize = self.held.len();
        let mut at: usize = 0;
        while at < n && bytes_less(self.held[at].0.as_slice(), key)
            invariant
                at <= n == self.held@.len(),
                models == self.held_entries(),
                forall|i: int| 0 <= i < at ==> bytes_lt((#[trigger] models[i]).0, key@),
            decreases n - at,
        {
            assert(bytes_lt(models[at as int].0, key@));
            at = at + 1;
        }
        proof {
            if at < n {
                assert(!bytes_lt(models[at as int].0, key@));
            }
            lemma_key_position_is(models, key@, at as int);
        }
        at
    }
}

impl Index for InMemoryIndex {
    open spec fn entries(&self, pages: Map<PageId, Seq<u8>>) -> Option<Seq<Entry>> {
        if self.wf() {
            Some(self.held_entries())
        } else {
            None
        }
    }

    fn insert<S: PageStore>(&mut self, store: &mut S, key: &[u8], loc: RecordLocation) -> (r:
        IoResult<()>)
        ensures
            r is Ok,
            *final(store) == *old(store),
            final(self).held_entries() == inserted(old(self).held_entries(), key@, loc),
    {
        let ghost models = self.held_entries();
        let at: usize = self.position(key);
        let entry: (Vec<u8>, RecordLocation) = (slice_to_vec(key), loc);
        if at < self.held.len() && bytes_equal(self.held[at].0.as_slice(), key) {
            self.held.set(at, entry);
            assert(self.held_entries() =~= models.update(at as int, (key@, loc)));
        } else {
            self.held.insert(at, entry);
            assert(self.held_entries() =~= models.insert(at as int, (key@, loc)));
        }
        proof {
            if sorted(models) {
                lemma_inserted_sorted(models, key@, loc);
            }
        }
        Ok(())
    }

    fn remove<S: PageStore>(&mut self, store: &mut S, key: &[u8]) -> (r: IoResult<()>)
        ensures
            r is Ok,
            *final(store) == *old(store),
            final(self).held_entries() == removed(old(self).held_entries(), key@),
    {
        let ghost models = self.held_entries();
        let at: usize = self.position(key);
        if at < self.held.len() && bytes_equal(self.held[at].0.as_slice(), key) {
            let _old = self.held.remove(at);
            assert(self.held_entries() =~= models.remove(at as int));
        }
        proof {
            if sorted(models) {
                lemma_removed_sorted(models, key@);
            }
        }
        Ok(())
    }

    fn lookup<S: PageStore>(&self, store: &S, key: &[u8]) -> (r: IoResult<Option<RecordLocation>>)
        ensures
            r matches Ok(found) && found == find(self.held_entries(), key@),
    {
        let at: usize = self.position(key);
        if at < self.held.len() && bytes_equal(self.held[at].0.as_slice(), key) {
            Ok(Some(self.held[at].1))
        } else {
            Ok(None)
        }
    }

    fn range<S: PageStore>(&self, store: &S, range: &KeyRange) -> (r: IoResult<
        Vec<(Vec<u8>, RecordLocation)>,
    >)
        ensures
            r matches Ok(found) && entry_models(found@) == in_range(self.held_entries(), range@),
    {
        let ghost models = self.held_entries();
        let n: usize = self.held.len();
        let mut found: Vec<(Vec<u8>, RecordLocation)> = Vec::new();
        assert(models.take(0) =~= Seq::<Entry>::empty());
        assert(in_range(models.take(0), range@) =~= Seq::<Entry>::empty()) by {
            reveal(Seq::filter);
        }
        assert(entry_models(found@) =~= Seq::<Entry>::empty());
        for i in 0..n
            invariant
                n == self.held@.len(),
                models == self.held_entries(),
                entry_models(found@) == in_range(models.take(i as int), range@),
        {
            let ghost before = found@;
            proof {
                assert(models.take(i + 1) =~= models.take(i as int).push(models[i as int]));
                lemma_in_range_push(models.take(i as int), models[i as int], range@);
            }
            if range.contains(self.held[i].0.as_slice()) {
                found.push((slice_to_vec(self.held[i].0.as_slice()), self.held[i].1));
                assert(entry_models(found@) =~= entry_models(before).push(models[i as int]));
            }
        }
        assert(models.take(n as int) =~= models);
        Ok(found)
    }

    fn scan<S: PageStore>(&self, store: &S) -> (r: IoResult<Vec<(Vec<u8>, RecordLocation)>>)
        ensures
            r matches Ok(found) && entry_models(found@) == self.held_entries(),
    {
        let everything = KeyRange::everything();
        proof {
            super::entries::lemma_in_range_all(self.held_entries(), everything@);
        }
        self.range(store, &everything)
    }
}

} // verus!

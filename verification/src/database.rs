//! Opening a database and running changes as atomic, durable units.

use crate::catalog::{exists_in, indexes_of, meta_of, Catalog, CollectionModel};
use crate::collection::apply::{
    apply_write_op, op_applied, op_outcome, op_refused, op_shallow, op_unique, op_valid, stored_in,
};
use crate::collection::state::sound;
use crate::document::DocModel;
use crate::error::{Error, IoResult};
use crate::durability::images;
use crate::storage::staging::{are_changes, Staging};
use crate::storage::{PageId, PageImage, PageStore};
use crate::txn::WriteOp;
use vstd::prelude::*;

verus! {

/// Bytes of pages kept in memory unless said otherwise: 256 MiB.
pub const DEFAULT_CACHE_SIZE: usize = 0x1000_0000;

/// How many committed pages may wait in memory, logged but not written back,
/// before a commit writes them back: 1,000 pages of 8 KB each.
pub const DEFAULT_CHECKPOINT_PAGES: usize = 1000;

/// How a database is opened. Made with `OpenOptions::default()` and its
/// setters.
#[derive(Debug, Clone, Copy, PartialEq, Eq, Structural)]
#[non_exhaustive]
pub struct OpenOptions {
    cache_size: usize,
    checkpoint_pages: usize,
}

impl Default for OpenOptions {
    fn default() -> (o: OpenOptions)
        ensures
            o.cache() == DEFAULT_CACHE_SIZE,
            o.threshold() == DEFAULT_CHECKPOINT_PAGES,
    {
        OpenOptions { cache_size: DEFAULT_CACHE_SIZE, checkpoint_pages: DEFAULT_CHECKPOINT_PAGES }
    }
}

impl OpenOptions {
    /// The bytes of pages to keep in memory.
    pub closed spec fn cache(&self) -> usize {
        self.cache_size
    }

    /// How many committed pages may wait.
    pub closed spec fn threshold(&self) -> usize {
        self.checkpoint_pages
    }

    /// At most this many bytes of the file's pages kept in memory; 0 keeps
    /// none.
    pub fn cache_size(self, bytes: usize) -> (o: OpenOptions)
        ensures
            o.cache() == bytes,
            o.threshold() == self.threshold(),
    {
        OpenOptions { cache_size: bytes, checkpoint_pages: self.checkpoint_pages }
    }

    /// Once this many committed pages wait, a commit writes them back to the
    /// file; 0 or 1 writes them back after every commit.
    pub fn checkpoint_pages(self, pages: usize) -> (o: OpenOptions)
        ensures
            o.threshold() == pages,
            o.cache() == self.cache(),
    {
        OpenOptions { cache_size: self.cache_size, checkpoint_pages: pages }
    }

    /// The bytes of pages to keep in memory.
    pub fn cached_bytes(&self) -> (n: usize)
        ensures
            n == self.cache(),
    {
        self.cache_size
    }

    /// How many committed pages may wait before a commit writes them back.
    pub fn waiting_pages(&self) -> (n: usize)
        ensures
            n == self.threshold(),
    {
        self.checkpoint_pages
    }
}

/// What each collection holds, by its name.
pub type Contents = spec_fn(Seq<char>) -> Map<Seq<u8>, DocModel>;

/// What each collection holds.
pub open spec fn contents(pages: Map<PageId, Seq<u8>>, list: Seq<CollectionModel>) -> Contents {
    |name: Seq<char>| stored_in(pages, list, name)
}

/// What one change makes of everything; `None` if it can't be applied.
pub open spec fn op_makes(before: Contents, op: WriteOp) -> Option<Contents> {
    match op_applied(op, before(op.name())) {
        Some(held) => Some(
            |name: Seq<char>|
                if name == op.name() {
                    held
                } else {
                    before(name)
                },
        ),
        None => None,
    }
}

/// What changes make of everything, one after the other.
pub open spec fn batch_makes(before: Contents, ops: Seq<WriteOp>) -> Option<Contents>
    decreases ops.len(),
{
    if ops.len() == 0 {
        Some(before)
    } else {
        match batch_makes(before, ops.drop_last()) {
            Some(middle) => op_makes(middle, ops.last()),
            None => None,
        }
    }
}

/// Whether everything holds exactly this.
pub open spec fn holds_all(
    pages: Map<PageId, Seq<u8>>,
    list: Seq<CollectionModel>,
    all: Contents,
) -> bool {
    forall|name: Seq<char>| #[trigger] stored_in(pages, list, name) == all(name)
}

/// Whether every change holds a document that can be one.
pub open spec fn ops_valid(ops: Seq<WriteOp>) -> bool {
    forall|i: int| 0 <= i < ops.len() ==> op_valid(#[trigger] ops[i])
}

/// Whether no change writes a document that is nested too deep.
pub open spec fn all_shallow(ops: Seq<WriteOp>) -> bool {
    forall|i: int| 0 <= i < ops.len() ==> op_shallow(#[trigger] ops[i])
}

/// Whether a collection exists once changes were applied: it did, or one of
/// them inserted into it.
pub open spec fn made_by(list: Seq<CollectionModel>, ops: Seq<WriteOp>, name: Seq<char>) -> bool {
    exists_in(list, name) || exists|i: int|
        0 <= i < ops.len() && #[trigger] ops[i] is Insert && ops[i].name() == name
}

/// What holds of the catalog once changes were applied: the collections are
/// those that were there and those inserted into, and every index is as it was.
pub open spec fn catalog_after(
    list: Seq<CollectionModel>,
    ops: Seq<WriteOp>,
    now: Seq<CollectionModel>,
) -> bool {
    &&& forall|name: Seq<char>| #[trigger] exists_in(now, name) <==> made_by(list, ops, name)
    &&& forall|name: Seq<char>| #[trigger] indexes_of(now, name) == indexes_of(list, name)
}

/// What the collection of change `i` holds when it comes to it.
pub open spec fn met(before: Contents, ops: Seq<WriteOp>, i: int) -> Map<Seq<u8>, DocModel> {
    (batch_makes(before, ops.take(i))->Some_0)(ops[i].name())
}

/// Whether no unique index refuses a change, each on what it meets.
pub open spec fn all_unique(
    list: Seq<CollectionModel>,
    before: Contents,
    ops: Seq<WriteOp>,
) -> bool {
    forall|i: int|
        0 <= i < ops.len() ==> op_unique(
            #[trigger] ops[i],
            met(before, ops, i),
            indexes_of(list, ops[i].name()),
        )
}

/// What a batch leaves when it is applied: each change on what those before it
/// made, with the indexes that there were.
pub open spec fn batch_applied(
    before: Map<PageId, Seq<u8>>,
    list: Seq<CollectionModel>,
    ops: Seq<WriteOp>,
    after: Map<PageId, Seq<u8>>,
    now: Seq<CollectionModel>,
) -> bool {
    &&& sound(after, now)
    &&& batch_makes(contents(before, list), ops) matches Some(all) && holds_all(after, now, all)
    &&& catalog_after(list, ops, now)
    &&& all_unique(list, contents(before, list), ops)
}

/// Why a batch is refused: one of its changes is, after those before it, by
/// the indexes that there are.
pub open spec fn batch_refused(
    e: Error,
    list: Seq<CollectionModel>,
    before: Contents,
    ops: Seq<WriteOp>,
    broken: bool,
) -> bool {
    exists|i: int|
        0 <= i < ops.len() && batch_makes(before, ops.take(i)) is Some && op_refused(
            e,
            #[trigger] ops[i],
            made_by(list, ops.take(i), ops[i].name()),
            met(before, ops, i),
            indexes_of(list, ops[i].name()),
            broken,
        )
}

/// One more change was applied.
proof fn lemma_one_applied(
    before: Map<PageId, Seq<u8>>,
    list: Seq<CollectionModel>,
    ops: Seq<WriteOp>,
    i: int,
    pages: Map<PageId, Seq<u8>>,
    middle: Seq<CollectionModel>,
    after: Map<PageId, Seq<u8>>,
    now: Seq<CollectionModel>,
    broken: bool,
)
    requires
        0 <= i < ops.len(),
        batch_applied(before, list, ops.take(i), pages, middle),
        op_outcome(ops[i], pages, middle, after, now, Ok::<(), Error>(()), broken),
    ensures
        batch_applied(before, list, ops.take(i + 1), after, now),
{
    let first = contents(before, list);
    let less = ops.take(i);
    let more = ops.take(i + 1);
    let op = ops[i];
    let so_far = batch_makes(first, less)->Some_0;
    assert(more.drop_last() =~= less);
    assert(more.last() == op);
    assert(stored_in(pages, middle, op.name()) == so_far(op.name()));
    let all = op_makes(so_far, op)->Some_0;
    assert forall|name: Seq<char>| #[trigger] stored_in(after, now, name) == all(name) by {
        if name != op.name() {
            assert(stored_in(after, now, name) == stored_in(pages, middle, name));
        }
    }
    assert forall|name: Seq<char>| #[trigger] exists_in(now, name) <==> made_by(
        list,
        more,
        name,
    ) by {
        lemma_made_by(list, ops, i, name);
        assert(exists_in(middle, name) <==> made_by(list, less, name));
        if name != op.name() {
            assert(meta_of(now, name) == meta_of(middle, name));
        } else if !(op is Insert) && !exists_in(middle, name) {
            // Only what is there can be changed.
            assert(stored_in(pages, middle, name) =~= Map::empty());
        }
    }
    assert forall|name: Seq<char>| #[trigger] indexes_of(now, name) == indexes_of(list, name) by {
        assert(indexes_of(middle, name) == indexes_of(list, name));
    }
    assert forall|k: int| 0 <= k < more.len() implies op_unique(
        #[trigger] more[k],
        met(first, more, k),
        indexes_of(list, more[k].name()),
    ) by {
        assert(more.take(k) =~= ops.take(k));
        if k < i {
            assert(more[k] == less[k]);
            assert(less.take(k) =~= ops.take(k));
        } else {
            assert(indexes_of(middle, op.name()) == indexes_of(list, op.name()));
        }
    }
}

/// One more change that makes its collection.
proof fn lemma_made_by(list: Seq<CollectionModel>, ops: Seq<WriteOp>, i: int, name: Seq<char>)
    requires
        0 <= i < ops.len(),
    ensures
        made_by(list, ops.take(i + 1), name) <==> made_by(list, ops.take(i), name) || (ops[i] is Insert
            && ops[i].name() == name),
{
    let less = ops.take(i);
    let more = ops.take(i + 1);
    if made_by(list, less, name) && !exists_in(list, name) {
        let k = choose|k: int|
            0 <= k < less.len() && #[trigger] less[k] is Insert && less[k].name() == name;
        assert(more[k] == less[k]);
    }
    if ops[i] is Insert && ops[i].name() == name {
        assert(more[i] == ops[i]);
    }
    if made_by(list, more, name) && !exists_in(list, name) {
        let k = choose|k: int|
            0 <= k < more.len() && #[trigger] more[k] is Insert && more[k].name() == name;
        if k < i {
            assert(less[k] == more[k]);
        }
    }
}

/// Applies changes in order. After an error the store may be half changed: the
/// caller rolls it back.
pub fn apply_batch<S: PageStore>(catalog: &mut Catalog, store: &mut S, ops: &Vec<WriteOp>) -> (r:
    Result<(), Error>)
    requires
        old(store).wf(),
    ensures
        final(store).wf(),
        final(store).reliable() == old(store).reliable(),
        sound(old(store).pages(), old(catalog)@) && ops_valid(ops@) ==> match r {
            Ok(()) => all_shallow(ops@) && batch_applied(
                old(store).pages(),
                old(catalog)@,
                ops@,
                final(store).pages(),
                final(catalog)@,
            ),
            Err(e) => batch_refused(
                e,
                old(catalog)@,
                contents(old(store).pages(), old(catalog)@),
                ops@,
                !old(store).reliable() || final(store).full(),
            ),
        },
{
    let ghost before = store.pages();
    let ghost list = catalog@;
    let ghost good = sound(before, list) && ops_valid(ops@);
    let n: usize = ops.len();
    proof {
        let none = ops@.take(0);
        assert(none.len() == 0);
        assert(batch_makes(contents(before, list), none) == Some(contents(before, list)));
    }
    for i in 0..n
        invariant
            n == ops@.len(),
            store.wf(),
            store.reliable() == old(store).reliable(),
            before == old(store).pages(),
            list == old(catalog)@,
            good == (sound(before, list) && ops_valid(ops@)),
            good ==> batch_applied(before, list, ops@.take(i as int), store.pages(), catalog@),
            good ==> forall|j: int| 0 <= j < i ==> op_shallow(#[trigger] ops@[j]),
    {
        let ghost pages = store.pages();
        let ghost middle = catalog@;
        let ghost op = ops@[i as int];
        match apply_write_op(catalog, store, &ops[i]) {
            Ok(()) => {
                proof {
                    if good {
                        lemma_one_applied(
                            before,
                            list,
                            ops@,
                            i as int,
                            pages,
                            middle,
                            store.pages(),
                            catalog@,
                            !store.reliable() || store.full(),
                        );
                    }
                }
            },
            Err(e) => {
                proof {
                    if good {
                        assert(exists_in(middle, op.name()) <==> made_by(
                            list,
                            ops@.take(i as int),
                            op.name(),
                        ));
                        assert(indexes_of(middle, op.name()) == indexes_of(list, op.name()));
                        assert(stored_in(pages, middle, op.name()) == met(
                            contents(before, list),
                            ops@,
                            i as int,
                        ));
                        assert(op == ops@[i as int]);
                    }
                }
                return Err(e);
            },
        }
    }
    assert(ops@.take(n as int) =~= ops@);
    Ok(())
}

/// The mutable part of an open database.
pub struct State<S: Staging> {
    pub store: S,
    pub catalog: Catalog,
    /// Set when a batch's fate is unknown: it was to be logged, that failed,
    /// and the log couldn't be emptied. From then on every call fails with
    /// `Error::Poisoned` until the database is reopened.
    pub poisoned: bool,
    /// How many committed pages may wait before a commit writes them back.
    pub checkpoint_pages: usize,
}

/// A change under way: what it takes to go back.
pub struct Started<S: Staging> {
    pub catalog: Catalog,
    pub snapshot: S::Snapshot,
}

/// What comes after a change was applied.
pub enum Applied<S: Staging, R> {
    /// Nothing: it failed and was taken back, or changed nothing.
    Done(Result<R, Error>),
    /// Its pages are to be logged durably, as one record.
    Log { started: Started<S>, pages: Vec<PageImage>, result: R },
}

/// What comes after its pages were to be logged.
pub enum Logged<R> {
    /// It's durable. If `checkpoint`, the committed pages are to be written
    /// back and the log emptied; that failing is no failure of this change.
    Committed { result: R, checkpoint: bool },
    /// It was taken back. The log is to be emptied, since a failed write may
    /// still have left a complete record behind.
    Failed(Error),
}

impl<S: Staging> State<S> {
    /// Starts a change: its page writes stay staged from here on. Fails if the
    /// database is poisoned.
    pub fn begin(&mut self) -> (r: Result<Started<S>, Error>)
        requires
            old(self).store.wf(),
        ensures
            final(self).store.wf(),
            final(self).store.reliable() == old(self).store.reliable(),
            final(self).store.pages() == old(self).store.pages(),
            final(self).catalog@ == old(self).catalog@,
            final(self).poisoned == old(self).poisoned,
            final(self).checkpoint_pages == old(self).checkpoint_pages,
            match r {
                Ok(started) => !old(self).poisoned && !final(self).store.full() && started.catalog@
                    == old(self).catalog@
                    && S::whole(&started.snapshot) && S::kept(&started.snapshot)
                    == old(self).store.pages(),
                Err(e) => old(self).poisoned && e is Poisoned,
            },
    {
        if self.poisoned {
            return Err(Error::Poisoned);
        }
        let catalog = self.catalog.clone();
        let snapshot = self.store.begin();
        Ok(Started { catalog, snapshot })
    }

    /// Takes a change that was applied on: on an error, the staged pages and
    /// the catalog go back to what they were; otherwise its changed pages are
    /// to be logged, if there are any.
    pub fn applied<R>(&mut self, started: Started<S>, result: Result<R, Error>) -> (r: Applied<S, R>)
        requires
            old(self).store.wf(),
            S::whole(&started.snapshot),
        ensures
            final(self).store.wf(),
            final(self).store.reliable() == old(self).store.reliable(),
            final(self).poisoned == old(self).poisoned,
            final(self).checkpoint_pages == old(self).checkpoint_pages,
            match result {
                Err(e) => r == Applied::<S, R>::Done(Err(e)) && final(self).store.pages() == S::kept(
                    &started.snapshot,
                ) && final(self).catalog@ == started.catalog@ && final(self).store.full() == old(
                    self,
                ).store.full(),
                Ok(value) => final(self).store.pages() == old(self).store.pages()
                    && final(self).catalog@ == old(self).catalog@ && match r {
                    Applied::Done(done) => done == Ok::<R, Error>(value)
                        && old(self).store.pages() == S::kept(&started.snapshot),
                    Applied::Log { started: held, pages, result } => held == started && result
                        == value && pages@.len() > 0 && are_changes(
                        S::kept(&started.snapshot),
                        old(self).store.pages(),
                        images(pages@),
                    ),
                },
            },
    {
        match result {
            Err(e) => {
                self.store.rollback(started.snapshot);
                self.catalog = started.catalog;
                Applied::Done(Err(e))
            },
            Ok(value) => {
                let pages = self.store.dirty_pages(&started.snapshot);
                if pages.len() == 0 {
                    self.store.rollback(started.snapshot);
                    return Applied::Done(Ok(value));
                }
                Applied::Log { started, pages, result: value }
            },
        }
    }

    /// Takes a change whose pages were to be logged on: durable now, or taken
    /// back.
    pub fn logged<R>(&mut self, started: Started<S>, result: R, outcome: IoResult<()>) -> (r: Logged<
        R,
    >)
        requires
            old(self).store.wf(),
            S::whole(&started.snapshot),
        ensures
            final(self).store.wf(),
            final(self).store.reliable() == old(self).store.reliable(),
            final(self).poisoned == old(self).poisoned,
            final(self).checkpoint_pages == old(self).checkpoint_pages,
            match outcome {
                Ok(()) => final(self).store.pages() == old(self).store.pages()
                    && final(self).catalog@ == old(self).catalog@ && (r matches Logged::Committed {
                    result: value,
                    checkpoint,
                } && value == result && checkpoint == (final(self).store.unwritten()
                    >= old(self).checkpoint_pages)),
                Err(e) => final(self).store.pages() == S::kept(&started.snapshot)
                    && final(self).catalog@ == started.catalog@ && r == Logged::<R>::Failed(
                    Error::Io(e),
                ),
            },
    {
        match outcome {
            Ok(()) => {
                self.store.commit(started.snapshot);
                let checkpoint: bool = self.store.unwritten_pages() >= self.checkpoint_pages;
                Logged::Committed { result, checkpoint }
            },
            Err(e) => {
                self.store.rollback(started.snapshot);
                self.catalog = started.catalog;
                Logged::Failed(Error::Io(e))
            },
        }
    }

    /// Takes note of whether the log could be emptied after a failed write to
    /// it: if not, the change's fate is unknown.
    pub fn emptied(&mut self, ok: bool)
        ensures
            final(self).store == old(self).store,
            final(self).catalog == old(self).catalog,
            final(self).checkpoint_pages == old(self).checkpoint_pages,
            final(self).poisoned == (old(self).poisoned || !ok),
    {
        if !ok {
            self.poisoned = true;
        }
    }

    /// Stages a batch of changes: an empty one only reports a poisoned
    /// database. If one is refused, none is applied.
    pub fn stage_batch(&mut self, ops: &Vec<WriteOp>) -> (r: Result<Applied<S, ()>, Error>)
        requires
            old(self).store.wf(),
        ensures
            final(self).store.wf(),
            final(self).store.reliable() == old(self).store.reliable(),
            final(self).poisoned == old(self).poisoned,
            final(self).checkpoint_pages == old(self).checkpoint_pages,
            old(self).poisoned <==> r is Err,
            r matches Err(e) ==> e is Poisoned,
            r is Err || (r matches Ok(Applied::Done(Err(_)))) ==> final(self).store.pages()
                == old(self).store.pages() && final(self).catalog@ == old(self).catalog@,
            r matches Ok(Applied::Log { started, pages, .. }) ==> S::whole(&started.snapshot)
                && S::kept(&started.snapshot) == old(self).store.pages() && started.catalog@ == old(
                self,
            ).catalog@ && pages@.len() > 0 && are_changes(
                old(self).store.pages(),
                final(self).store.pages(),
                images(pages@),
            ),
            r matches Ok(Applied::Done(Ok(_))) ==> final(self).store.pages() == old(
                self,
            ).store.pages(),
            sound(old(self).store.pages(), old(self).catalog@) && ops_valid(ops@) ==> match r {
                Err(_) => true,
                Ok(Applied::Done(Err(e))) => batch_refused(
                    e,
                    old(self).catalog@,
                    contents(old(self).store.pages(), old(self).catalog@),
                    ops@,
                    !old(self).store.reliable() || final(self).store.full(),
                ),
                Ok(_) => all_shallow(ops@) && batch_applied(
                    old(self).store.pages(),
                    old(self).catalog@,
                    ops@,
                    final(self).store.pages(),
                    final(self).catalog@,
                ),
            },
    {
        let started = match self.begin() {
            Ok(started) => started,
            Err(e) => return Err(e),
        };
        let result = apply_batch(&mut self.catalog, &mut self.store, ops);
        Ok(self.applied(started, result))
    }
}

} // verus!

//! Keeping secondary indexes in step with documents.

use super::state::{entries_at, lemma_tree_facts};
use crate::bytes::bytes_equal;
use crate::catalog::entry::IndexModel;
use crate::catalog::IndexMeta;
use crate::data::{get_record, record_at};
use crate::document::{models, DocId, DocModel, Document};
use crate::error::{Error, IoResult};
use crate::index::btree::{tree_grown, tree_pages, BTreeIndex};
use crate::index::entries::{find, in_range, inserted_is_found, removed_is_not_found};
use crate::index::key::{doc_id, key_id, MAX_COMPOUND_FIELDS, MAX_KEY_LEN};
use crate::index::node::entry_models;
use crate::index::range::{prefix_range, KeyRange};
use crate::index::tree::{has_tree, Entry};
use crate::index::Index;
use crate::secondary::{collides, has_tuple, key_models, same_values, tuples_equal, unique_tuples};
use crate::storage::{PageId, PageStore, RecordLocation};
use vstd::prelude::*;
use vstd::string::StringExecFns;

verus! {

/// One change to an index after another is a change.
pub proof fn lemma_grown_twice(
    a: Map<PageId, Seq<u8>>,
    b: Map<PageId, Seq<u8>>,
    c: Map<PageId, Seq<u8>>,
    root: PageId,
)
    requires
        tree_grown(a, b, root),
        tree_grown(b, c, root),
    ensures
        tree_grown(a, c, root),
{
    assert forall|p: PageId| #[trigger] c.dom().contains(p) <==> a.dom().contains(p) || tree_pages(
        c,
        root,
    ).contains(p) by {
        assert(c.dom().contains(p) <==> b.dom().contains(p) || tree_pages(c, root).contains(p));
        assert(b.dom().contains(p) <==> a.dom().contains(p) || tree_pages(b, root).contains(p));
        assert(tree_pages(b, root).contains(p) ==> tree_pages(c, root).contains(p));
    }
    assert forall|p: PageId| #[trigger]
        a.dom().contains(p) && !tree_pages(a, root).contains(p) implies c[p] == a[p] by {
        assert(b.dom().contains(p));
        assert(!tree_pages(b, root).contains(p));
    }
    assert forall|p: PageId| #[trigger] tree_pages(c, root).contains(p) implies tree_pages(
        a,
        root,
    ).contains(p) || !a.dom().contains(p) by {
        assert(tree_pages(b, root).contains(p) || !b.dom().contains(p));
        assert(a.dom().contains(p) ==> b.dom().contains(p));
    }
    assert forall|p: PageId| #[trigger] tree_pages(a, root).contains(p) implies tree_pages(
        c,
        root,
    ).contains(p) by {
        assert(tree_pages(b, root).contains(p));
    }
}

/// No change is a change.
pub proof fn lemma_grown_never(a: Map<PageId, Seq<u8>>, root: PageId)
    requires
        has_tree(a, root),
    ensures
        tree_grown(a, a, root),
{
    lemma_tree_facts(a, root);
}

/// Whether a key is among some keys.
pub fn has_this_key(keys: &Vec<Vec<u8>>, key: &Vec<u8>) -> (r: bool)
    ensures
        r == key_models(keys@).contains(key@),
{
    let n: usize = keys.len();
    let ghost all = key_models(keys@);
    for i in 0..n
        invariant
            n == keys@.len(),
            all == key_models(keys@),
            forall|k: int| 0 <= k < i ==> #[trigger] all[k] != key@,
    {
        assert(all[i as int] == keys@[i as int]@);
        if bytes_equal(keys[i].as_slice(), key.as_slice()) {
            return true;
        }
    }
    false
}

/// Takes keys out of an index: all of `keys`, or only those that aren't
/// among `stay`.
pub fn remove_keys<S: PageStore>(
    store: &mut S,
    root: PageId,
    keys: &Vec<Vec<u8>>,
    stay: &Vec<Vec<u8>>,
    all: bool,
) -> (r: IoResult<()>)
    requires
        old(store).wf(),
    ensures
        final(store).wf(),
        final(store).reliable() == old(store).reliable(),
        old(store).packed() && r is Ok ==> final(store).packed(),
        has_tree(old(store).pages(), root) ==> match r {
            Ok(()) => {
                &&& has_tree(final(store).pages(), root)
                &&& tree_grown(old(store).pages(), final(store).pages(), root)
                &&& forall|key: Seq<u8>| #[trigger]
                    find(entries_at(final(store).pages(), root), key) == (if key_models(
                        keys@,
                    ).contains(key) && (all || !key_models(stay@).contains(key)) {
                        None
                    } else {
                        find(entries_at(old(store).pages(), root), key)
                    })
            },
            Err(_) => !old(store).reliable(),
        },
{
    let ghost before = store.pages();
    let ghost good = has_tree(before, root);
    let ghost models = key_models(keys@);
    let mut tree = BTreeIndex::new(root);
    let n: usize = keys.len();
    proof {
        if good {
            lemma_grown_never(before, root);
        }
    }
    for i in 0..n
        invariant
            n == keys@.len(),
            models == key_models(keys@),
            store.wf(),
            store.reliable() == old(store).reliable(),
            old(store).packed() ==> store.packed(),
            tree.root == root,
            before == old(store).pages(),
            good == has_tree(before, root),
            good ==> has_tree(store.pages(), root),
            good ==> tree_grown(before, store.pages(), root),
            good ==> forall|key: Seq<u8>| #[trigger]
                find(entries_at(store.pages(), root), key) == (if models.take(i as int).contains(
                    key,
                ) && (all || !key_models(stay@).contains(key)) {
                    None
                } else {
                    find(entries_at(before, root), key)
                }),
    {
        let ghost pages = store.pages();
        let ghost part = models.take(i as int);
        let ghost more = models.take(i + 1);
        let ghost this = keys@[i as int]@;
        proof {
            assert(more =~= part.push(this));
            assert forall|key: Seq<u8>| #[trigger] more.contains(key) <==> part.contains(key)
                || key == this by {
                if more.contains(key) {
                    let k = choose|k: int| 0 <= k < more.len() && more[k] == key;
                    if k < i {
                        assert(part[k] == key);
                    }
                }
                if part.contains(key) {
                    let k = choose|k: int| 0 <= k < part.len() && part[k] == key;
                    assert(more[k] == key);
                }
                if key == this {
                    assert(more[i as int] == key);
                }
            }
        }
        if all || !has_this_key(stay, &keys[i]) {
            match tree.remove(store, keys[i].as_slice()) {
                Ok(()) => {},
                Err(e) => return Err(e),
            }
            proof {
                if good {
                    lemma_tree_facts(pages, root);
                    lemma_tree_facts(store.pages(), root);
                    lemma_grown_twice(before, pages, store.pages(), root);
                    let e = entries_at(pages, root);
                    assert forall|key: Seq<u8>| #[trigger]
                        find(entries_at(store.pages(), root), key) == (if more.contains(key) && (
                        all || !key_models(stay@).contains(key)) {
                            None
                        } else {
                            find(entries_at(before, root), key)
                        }) by {
                        removed_is_not_found(e, this, key);
                        assert(find(e, key) == (if part.contains(key) && (all || !key_models(
                            stay@,
                        ).contains(key)) {
                            None
                        } else {
                            find(entries_at(before, root), key)
                        }));
                    }
                }
            }
        }
    }
    assert(models.take(n as int) =~= models);
    Ok(())
}

/// Puts keys into an index: all of `keys`, or only those that aren't among
/// `there`.
pub fn insert_keys<S: PageStore>(
    store: &mut S,
    root: PageId,
    keys: &Vec<Vec<u8>>,
    there: &Vec<Vec<u8>>,
    all: bool,
    loc: RecordLocation,
) -> (r: IoResult<()>)
    requires
        old(store).wf(),
        forall|i: int| 0 <= i < keys@.len() ==> (#[trigger] keys@[i])@.len() <= MAX_KEY_LEN,
    ensures
        final(store).wf(),
        final(store).reliable() == old(store).reliable(),
        old(store).packed() && r is Ok ==> final(store).packed(),
        has_tree(old(store).pages(), root) ==> match r {
            Ok(()) => {
                &&& has_tree(final(store).pages(), root)
                &&& tree_grown(old(store).pages(), final(store).pages(), root)
                &&& forall|key: Seq<u8>| #[trigger]
                    find(entries_at(final(store).pages(), root), key) == (if key_models(
                        keys@,
                    ).contains(key) && (all || !key_models(there@).contains(key)) {
                        Some(loc)
                    } else {
                        find(entries_at(old(store).pages(), root), key)
                    })
            },
            Err(_) => !old(store).reliable() || final(store).full(),
        },
{
    let ghost before = store.pages();
    let ghost good = has_tree(before, root);
    let ghost models = key_models(keys@);
    let mut tree = BTreeIndex::new(root);
    let n: usize = keys.len();
    proof {
        if good {
            lemma_grown_never(before, root);
        }
    }
    for i in 0..n
        invariant
            n == keys@.len(),
            models == key_models(keys@),
            store.wf(),
            store.reliable() == old(store).reliable(),
            old(store).packed() ==> store.packed(),
            tree.root == root,
            before == old(store).pages(),
            forall|i: int| 0 <= i < keys@.len() ==> (#[trigger] keys@[i])@.len() <= MAX_KEY_LEN,
            good == has_tree(before, root),
            good ==> has_tree(store.pages(), root),
            good ==> tree_grown(before, store.pages(), root),
            good ==> forall|key: Seq<u8>| #[trigger]
                find(entries_at(store.pages(), root), key) == (if models.take(i as int).contains(
                    key,
                ) && (all || !key_models(there@).contains(key)) {
                    Some(loc)
                } else {
                    find(entries_at(before, root), key)
                }),
    {
        let ghost pages = store.pages();
        let ghost part = models.take(i as int);
        let ghost more = models.take(i + 1);
        let ghost this = keys@[i as int]@;
        proof {
            assert(more =~= part.push(this));
            assert forall|key: Seq<u8>| #[trigger] more.contains(key) <==> part.contains(key)
                || key == this by {
                if more.contains(key) {
                    let k = choose|k: int| 0 <= k < more.len() && more[k] == key;
                    if k < i {
                        assert(part[k] == key);
                    }
                }
                if part.contains(key) {
                    let k = choose|k: int| 0 <= k < part.len() && part[k] == key;
                    assert(more[k] == key);
                }
                if key == this {
                    assert(more[i as int] == key);
                }
            }
        }
        if all || !has_this_key(there, &keys[i]) {
            match tree.insert(store, keys[i].as_slice(), loc) {
                Ok(()) => {},
                Err(e) => return Err(e),
            }
            proof {
                if good {
                    lemma_tree_facts(pages, root);
                    lemma_tree_facts(store.pages(), root);
                    lemma_grown_twice(before, pages, store.pages(), root);
                    let e = entries_at(pages, root);
                    assert forall|key: Seq<u8>| #[trigger]
                        find(entries_at(store.pages(), root), key) == (if more.contains(key) && (
                        all || !key_models(there@).contains(key)) {
                            Some(loc)
                        } else {
                            find(entries_at(before, root), key)
                        }) by {
                        inserted_is_found(e, this, loc, key);
                        assert(find(e, key) == (if part.contains(key) && (all || !key_models(
                            there@,
                        ).contains(key)) {
                            Some(loc)
                        } else {
                            find(entries_at(before, root), key)
                        }));
                    }
                }
            }
        }
    }
    assert(models.take(n as int) =~= models);
    Ok(())
}

/// Whether an entry stands for another document that collides.
pub open spec fn entry_collides(
    pages: Map<PageId, Seq<u8>>,
    index: IndexModel,
    id: Seq<u8>,
    tuple: Seq<DocModel>,
    entry: Entry,
) -> bool {
    key_id(entry.0) != id && (record_at(pages, entry.1) matches Some((_, doc)) && collides(
        doc,
        index,
        tuple,
    ))
}

/// Before document `id`'s `values` go into the unique `index` under
/// `value_part`: an error if another document under it has equal values.
/// Equal means equal to a filter's `Eq`, so `1` and `1.0` collide, `"a"` and
/// `"A"` don't. Keys can't decide it alone: different values can share a
/// key's value part (large ints rounding to one float, strings cut to the key
/// budget), so every document under the same value part is read and
/// compared; normally none.
pub fn check_unique<S: PageStore>(
    store: &S,
    collection: &str,
    index: &IndexMeta,
    id: DocId,
    value_part: &[u8],
    values: &Vec<Document>,
) -> (r: Result<(), Error>)
    requires
        store.wf(),
        1 <= index@.fields.len() <= MAX_COMPOUND_FIELDS,
    ensures
        has_tree(store.pages(), index.root) ==> ({
            let under = in_range(
                entries_at(store.pages(), index.root),
                prefix_range(value_part@),
            );
            match r {
                Ok(()) => forall|i: int|
                    0 <= i < under.len() ==> !entry_collides(
                        store.pages(),
                        index@,
                        id@,
                        models(values@),
                        #[trigger] under[i],
                    ),
                Err(Error::DuplicateValue { collection: c, field, id: new, existing }) => {
                    &&& c@ == collection@
                    &&& field@ == crate::catalog::entry::index_name(index@.fields)
                    &&& new@ == id@
                    &&& exists|i: int|
                        0 <= i < under.len() && key_id((#[trigger] under[i]).0) == existing@
                            && entry_collides(
                            store.pages(),
                            index@,
                            id@,
                            models(values@),
                            under[i],
                        )
                },
                Err(Error::Io(_)) => !store.reliable() || exists|i: int|
                    0 <= i < under.len() && record_at(store.pages(), (#[trigger] under[i]).1) is None,
                Err(_) => false,
            }
        }),
{
    let ghost pages = store.pages();
    let ghost good = has_tree(pages, index.root);
    let tree = BTreeIndex::new(index.root);
    let range = KeyRange::prefixed(value_part);
    let found = match tree.range(store, &range) {
        Ok(found) => found,
        Err(e) => return Err(Error::Io(e)),
    };
    let ghost under = in_range(
        entries_at(pages, index.root),
        prefix_range(value_part@),
    );
    proof {
        if good {
            lemma_tree_facts(pages, index.root);
            assert(entry_models(found@) == under);
        }
    }
    let n: usize = found.len();
    for i in 0..n
        invariant
            n == found@.len(),
            store.wf(),
            pages == store.pages(),
            good == has_tree(pages, index.root),
            good ==> entry_models(found@) == under,
            under == in_range(
                entries_at(pages, index.root),
                prefix_range(value_part@),
            ),
            1 <= index@.fields.len() <= MAX_COMPOUND_FIELDS,
            good ==> forall|k: int|
                0 <= k < i ==> !entry_collides(
                    pages,
                    index@,
                    id@,
                    models(values@),
                    #[trigger] under[k],
                ),
    {
        let existing: DocId = doc_id(found[i].0.as_slice());
        proof {
            if good {
                assert(entry_models(found@)[i as int] == under[i as int]);
                assert(under[i as int] == (found@[i as int].0@, found@[i as int].1));
            }
        }
        if !existing.same(&id) {
            let other = match get_record(store, found[i].1) {
                Ok((_, other)) => other,
                Err(e) => return Err(Error::Io(e)),
            };
            let tuples = unique_tuples(&other, index);
            if any_equal(&tuples, values, &other, index) {
                proof {
                    if good {
                        assert(entry_collides(
                            pages,
                            index@,
                            id@,
                            models(values@),
                            under[i as int],
                        ));
                    }
                }
                return Err(
                    Error::DuplicateValue {
                        collection: copy_text(collection),
                        field: index.name(),
                        id,
                        existing,
                    },
                );
            }
        }
    }
    Ok(())
}

/// A text, owned.
pub fn copy_text(text: &str) -> (r: String)
    ensures
        r@ == text@,
{
    String::from_str(text)
}

/// Whether one of a document's tuples collides.
fn any_equal(
    tuples: &Vec<(Vec<u8>, Vec<Document>)>,
    values: &Vec<Document>,
    other: &Document,
    index: &IndexMeta,
) -> (r: bool)
    requires
        forall|i: int|
            0 <= i < tuples@.len() ==> has_tuple(other@, index@, models((#[trigger] tuples@[i]).1@)),
        forall|tuple: Seq<DocModel>| #[trigger]
            has_tuple(other@, index@, tuple) ==> exists|i: int|
                0 <= i < tuples@.len() && models((#[trigger] tuples@[i]).1@) == tuple,
    ensures
        r == collides(other@, index@, models(values@)),
{
    let n: usize = tuples.len();
    for i in 0..n
        invariant
            n == tuples@.len(),
            forall|i: int|
                0 <= i < tuples@.len() ==> has_tuple(
                    other@,
                    index@,
                    models((#[trigger] tuples@[i]).1@),
                ),
            forall|k: int|
                0 <= k < i ==> !tuples_equal(
                    models((#[trigger] tuples@[k]).1@),
                    models(values@),
                ),
    {
        if same_values(&tuples[i].1, values) {
            assert(has_tuple(other@, index@, models(tuples@[i as int].1@)));
            return true;
        }
    }
    proof {
        if collides(other@, index@, models(values@)) {
            let tuple = choose|tuple: Seq<DocModel>|
                has_tuple(other@, index@, tuple) && #[trigger] tuples_equal(tuple, models(values@));
            let i = choose|i: int|
                0 <= i < tuples@.len() && models((#[trigger] tuples@[i]).1@) == tuple;
            assert(!tuples_equal(models(tuples@[i].1@), models(values@)));
        }
    }
    false
}

} // verus!

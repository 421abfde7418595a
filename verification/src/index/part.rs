//! The entries of a range, from either end, leaf by leaf, no further than they
//! are needed.

use super::btree::{lemma_branch_cells_injective, lemma_leaf_cells_injective, wrong_page_type};
use super::entries::{
    in_range, lemma_in_range_all, lemma_in_range_none, lemma_in_range_parts,
};
use super::node::{branch_keys, branch_kids, entry_models, read_branch, read_leaf};
use super::range::{KeyRange, RangeModel};
use super::shape::{trees_are_flat, MAX_LEVELS};
use super::sorting::reversed;
use super::tree::{
    balanced, branch_cells, contents, contents_list, high_bound, in_order, is_tree, leaf_cells,
    lemma_contents_concat, lemma_contents_in_order, lemma_list_around, lemma_single_list, level,
    low_bound, roots, stored, Entry, Tree,
};
use crate::decode::corrupt;
use crate::error::IoResult;
use crate::order::{bytes_less, bytes_lt, lemma_le_is_not_gt, lemma_lt_le_transitive};
use crate::storage::page::live;
use crate::storage::{PageId, PageStore, PageType, RecordLocation, SlottedPage};
use vstd::prelude::*;
use vstd::slice::slice_to_vec;

verus! {

/// Entries in the order they are read.
pub open spec fn read_order(entries: Seq<Entry>, backward: bool) -> Seq<Entry> {
    if backward {
        entries.reverse()
    } else {
        entries
    }
}

/// Whether some of what comes next was read on.
spec fn read_on(had: Seq<Entry>, now: Seq<Entry>, next: Seq<Entry>) -> bool {
    &&& had.len() <= now.len() <= had.len() + next.len()
    &&& now == had + next.take(now.len() - had.len())
}

/// Two parts of a range, in the order they are read.
proof fn lemma_two_parts(a: Seq<Entry>, b: Seq<Entry>, range: RangeModel, backward: bool)
    ensures
        read_order(in_range(a + b, range), backward) == if backward {
            read_order(in_range(b, range), backward) + read_order(in_range(a, range), backward)
        } else {
            read_order(in_range(a, range), backward) + read_order(in_range(b, range), backward)
        },
{
    lemma_in_range_parts(a, b, range);
    let x = in_range(a, range);
    let y = in_range(b, range);
    assert((x + y).reverse() =~= y.reverse() + x.reverse());
}

/// What was read on behind a first part.
proof fn lemma_read_behind(
    had: Seq<Entry>,
    mid: Seq<Entry>,
    now: Seq<Entry>,
    first: Seq<Entry>,
    next: Seq<Entry>,
    rest: Seq<Entry>,
)
    requires
        mid == had + first,
        read_on(mid, now, next),
    ensures
        read_on(had, now, first + next + rest),
{
    let k = now.len() - had.len();
    assert((first + next + rest).take(k) =~= first + next.take(now.len() - mid.len()));
    assert(now =~= had + (first + next + rest).take(k));
}

/// One entry, if it is in the range.
proof fn lemma_one(e: Entry, range: RangeModel)
    ensures
        in_range(seq![e], range) == if range.has(e.0) {
            seq![e]
        } else {
            Seq::<Entry>::empty()
        },
{
    if range.has(e.0) {
        lemma_in_range_all(seq![e], range);
    } else {
        lemma_in_range_none(seq![e], range);
    }
}

/// Whether a key is in a range.
fn holds(range: &KeyRange, key: &[u8]) -> (r: bool)
    ensures
        r == range@.has(key@),
{
    if bytes_less(key, range.start.as_slice()) {
        return false;
    }
    match &range.end {
        Some(end) => bytes_less(key, end.as_slice()),
        None => true,
    }
}

/// A leaf's entries that a range holds, from either end.
fn take_leaf(
    entries: &Vec<(Vec<u8>, RecordLocation)>,
    range: &KeyRange,
    backward: bool,
    results: &mut Vec<(Vec<u8>, RecordLocation)>,
)
    ensures
        entry_models(final(results)@) == entry_models(old(results)@) + read_order(
            in_range(entry_models(entries@), range@),
            backward,
        ),
{
    let ghost models = entry_models(entries@);
    let ghost start = entry_models(results@);
    let n: usize = entries.len();
    proof {
        lemma_in_range_none(Seq::<Entry>::empty(), range@);
        assert(models.take(0) =~= Seq::<Entry>::empty());
        assert(models.skip(n as int) =~= Seq::<Entry>::empty());
        assert(read_order(Seq::<Entry>::empty(), backward) =~= Seq::<Entry>::empty());
        assert(start + Seq::<Entry>::empty() =~= start);
    }
    for j in 0..n
        invariant
            n == entries@.len(),
            models == entry_models(entries@),
            start == entry_models(old(results)@),
            entry_models(results@) == start + read_order(
                in_range(
                    if backward {
                        models.skip(n - j)
                    } else {
                        models.take(j as int)
                    },
                    range@,
                ),
                backward,
            ),
    {
        let i: usize = if backward {
            n - 1 - j
        } else {
            j
        };
        let key: &[u8] = entries[i].0.as_slice();
        let ghost e = models[i as int];
        let ghost before = entry_models(results@);
        assert(e == (key@, entries@[i as int].1));
        let inside: bool = holds(range, key);
        if inside {
            results.push((slice_to_vec(key), entries[i].1));
            assert(entry_models(results@) =~= before.push(e));
        }
        proof {
            lemma_one(e, range@);
            let one = read_order(in_range(seq![e], range@), backward);
            assert(one =~= in_range(seq![e], range@));
            assert(entry_models(results@) =~= before + one);
            if backward {
                let rest = models.skip(n - j);
                assert(models.skip(n - (j + 1)) =~= seq![e] + rest);
                lemma_two_parts(seq![e], rest, range@, backward);
            } else {
                let rest = models.take(j as int);
                assert(models.take(j + 1) =~= rest + seq![e]);
                lemma_two_parts(rest, seq![e], range@, backward);
            }
        }
    }
    proof {
        assert(models.skip(0) =~= models);
        assert(models.take(n as int) =~= models);
    }
}

/// Whether a range may hold a key below a branch's kid.
fn may_hold(entries: &Vec<(Vec<u8>, PageId)>, i: usize, range: &KeyRange) -> (r: bool)
    requires
        i <= entries@.len(),
    ensures
        !r ==> {
            ||| i < entries@.len() && !bytes_lt(range@.start, entries@[i as int].0@)
            ||| i > 0 && (range@.end matches Some(end) && !bytes_lt(entries@[i - 1].0@, end))
        },
{
    if i < entries.len() && !bytes_less(range.start.as_slice(), entries[i].0.as_slice()) {
        return false;
    }
    if i > 0 {
        match &range.end {
            Some(end) => {
                if !bytes_less(entries[i - 1].0.as_slice(), end.as_slice()) {
                    return false;
                }
            },
            None => {},
        }
    }
    true
}

/// Nothing of a kid that lies outside a range.
proof fn lemma_outside(
    keys: Seq<Seq<u8>>,
    kid: Tree,
    low: Seq<u8>,
    high: Option<Seq<u8>>,
    i: int,
    range: RangeModel,
)
    requires
        0 <= i <= keys.len(),
        in_order(kid, low_bound(keys, low, i), high_bound(keys, high, i)),
        ({
            ||| i < keys.len() && !bytes_lt(range.start, keys[i])
            ||| i > 0 && (range.end matches Some(end) && !bytes_lt(keys[i - 1], end))
        }),
    ensures
        in_range(contents(kid), range) == Seq::<Entry>::empty(),
{
    let l = low_bound(keys, low, i);
    let h = high_bound(keys, high, i);
    lemma_contents_in_order(kid, l, h);
    let all = contents(kid);
    assert forall|k: int| 0 <= k < all.len() implies !range.has((#[trigger] all[k]).0) by {
        let key = all[k].0;
        if i < keys.len() && !bytes_lt(range.start, keys[i]) {
            assert(bytes_lt(key, keys[i]));
            if !bytes_lt(key, range.start) {
                lemma_le_is_not_gt(range.start, key);
                lemma_lt_le_transitive(range.start, key, keys[i]);
            }
        } else {
            let end = range.end->Some_0;
            assert(!bytes_lt(key, keys[i - 1]));
            if bytes_lt(key, end) {
                lemma_le_is_not_gt(keys[i - 1], key);
                lemma_lt_le_transitive(keys[i - 1], key, end);
            }
        }
    }
    lemma_in_range_none(all, range);
}

/// Adds what a range holds of the tree below a page, from either end, until
/// there are `want`, if so many are enough; `false` once there are.
fn walk_below<S: PageStore>(
    store: &S,
    page_id: PageId,
    range: &KeyRange,
    backward: bool,
    want: Option<usize>,
    levels: usize,
    results: &mut Vec<(Vec<u8>, RecordLocation)>,
    Ghost(t): Ghost<Tree>,
    Ghost(low): Ghost<Seq<u8>>,
    Ghost(high): Ghost<Option<Seq<u8>>>,
) -> (r: IoResult<bool>)
    requires
        store.wf(),
    ensures
        stored(store.pages(), t) && in_order(t, low, high) && balanced(t) && level(t) < levels
            && t.id() == page_id ==> match r {
            Ok(more) => {
                let next = read_order(in_range(contents(t), range@), backward);
                &&& read_on(entry_models(old(results)@), entry_models(final(results)@), next)
                &&& more ==> final(results)@.len() == old(results)@.len() + next.len()
            },
            Err(_) => !store.reliable(),
        },
        want is None ==> (r matches Ok(more) ==> more),
    decreases levels,
{
    let ghost pages = store.pages();
    let ghost had = entry_models(results@);
    let ghost good = stored(pages, t) && in_order(t, low, high) && balanced(t) && level(t) < levels
        && t.id() == page_id;
    let ghost next = read_order(in_range(contents(t), range@), backward);
    if levels == 0 {
        return Err(corrupt("an index has too many levels"));
    }
    let bytes = match store.read_page(page_id) {
        Ok(bytes) => bytes,
        Err(e) => return Err(e),
    };
    let page = match SlottedPage::from_bytes(bytes) {
        Ok(page) => page,
        Err(e) => return Err(e),
    };
    match page.page_type() {
        PageType::IndexLeaf => {
            let entries = match read_leaf(&page) {
                Ok(entries) => entries,
                Err(e) => {
                    proof {
                        if good {
                            assert(live(page@.slots) == leaf_cells(t->entries));
                        }
                    }
                    return Err(e);
                },
            };
            proof {
                if good {
                    lemma_leaf_cells_injective(entry_models(entries@), t->entries);
                }
            }
            take_leaf(&entries, range, backward, results);
            proof {
                if good {
                    assert(next.take(next.len() as int) =~= next);
                }
            }
            Ok(
                match want {
                    Some(want) => results.len() < want,
                    None => true,
                },
            )
        },
        PageType::IndexBranch => {
            let entries = match read_branch(&page) {
                Ok(entries) => entries,
                Err(e) => {
                    proof {
                        if good {
                            assert(live(page@.slots) == branch_cells(t->keys, roots(t->kids)));
                        }
                    }
                    return Err(e);
                },
            };
            let last: PageId = page.next_page();
            let n: usize = entries.len();
            let ghost keys = t->keys;
            let ghost kids = t->kids;
            proof {
                if good {
                    lemma_branch_cells_injective(
                        branch_keys(entries@),
                        branch_kids(entries@, last),
                        keys,
                        roots(kids),
                    );
                    assert(keys.len() == n);
                    assert(kids.len() == n + 1);
                    lemma_in_range_none(Seq::<Entry>::empty(), range@);
                    assert(contents_list(kids.take(0)) =~= Seq::<Entry>::empty());
                    assert(contents_list(kids.skip(n + 1)) =~= Seq::<Entry>::empty());
                    assert(read_order(Seq::<Entry>::empty(), backward)
                        =~= Seq::<Entry>::empty());
                    assert(had + Seq::<Entry>::empty() =~= had);
                }
            }
            let mut j: u128 = 0;
            while j <= n as u128
                invariant
                    j <= n + 1,
                    n == entries@.len(),
                    levels > 0,
                    store.wf(),
                    pages == store.pages(),
                    had == entry_models(old(results)@),
                    good == (stored(pages, t) && in_order(t, low, high) && balanced(t) && level(t)
                        < levels && t.id() == page_id),
                    good ==> t is Branch,
                    keys == t->keys,
                    kids == t->kids,
                    good ==> branch_keys(entries@) == keys && branch_kids(entries@, last) == roots(
                        kids,
                    ) && keys.len() == n && kids.len() == n + 1,
                    next == read_order(in_range(contents(t), range@), backward),
                    good ==> entry_models(results@) == had + read_order(
                        in_range(
                            contents_list(
                                if backward {
                                    kids.skip(n + 1 - j)
                                } else {
                                    kids.take(j as int)
                                },
                            ),
                            range@,
                        ),
                        backward,
                    ),
                decreases n + 1 - j,
            {
                let i: usize = if backward {
                    (n as u128 - j) as usize
                } else {
                    j as usize
                };
                let child: PageId = if i < n {
                    entries[i].1
                } else {
                    last
                };
                let ghost mid = entry_models(results@);
                let ghost kid = kids[i as int];
                let ghost l = low_bound(keys, low, i as int);
                let ghost h = high_bound(keys, high, i as int);
                let ghost first = read_order(
                    in_range(
                        contents_list(
                            if backward {
                                kids.skip(n + 1 - j)
                            } else {
                                kids.take(j as int)
                            },
                        ),
                        range@,
                    ),
                    backward,
                );
                let ghost one = read_order(in_range(contents(kid), range@), backward);
                let ghost rest = read_order(
                    in_range(
                        contents_list(
                            if backward {
                                kids.take(i as int)
                            } else {
                                kids.skip(i + 1)
                            },
                        ),
                        range@,
                    ),
                    backward,
                );
                proof {
                    if good {
                        lemma_kid_next(kids, i as int, range@, backward);
                        assert(branch_kids(entries@, last)[i as int] == child);
                        assert(roots(kids)[i as int] == kid.id());
                        assert(stored(pages, kid));
                        assert(in_order(kid, l, h));
                        assert(balanced(kid) && level(kid) == level(kids[0]));
                        assert(next == first + one + rest);
                    }
                }
                if may_hold(&entries, i, range) {
                    match walk_below(
                        store,
                        child,
                        range,
                        backward,
                        want,
                        levels - 1,
                        results,
                        Ghost(kid),
                        Ghost(l),
                        Ghost(h),
                    ) {
                        Ok(more) => {
                            if !more {
                                proof {
                                    if good {
                                        lemma_read_behind(
                                            had,
                                            mid,
                                            entry_models(results@),
                                            first,
                                            one,
                                            rest,
                                        );
                                    }
                                }
                                return Ok(false);
                            }
                            proof {
                                if good {
                                    assert(one.take(one.len() as int) =~= one);
                                }
                            }
                        },
                        Err(e) => return Err(e),
                    }
                } else {
                    proof {
                        if good {
                            if i < n {
                                assert(keys[i as int] == entries@[i as int].0@);
                            }
                            if i > 0 {
                                assert(keys[i - 1] == entries@[i - 1].0@);
                            }
                            lemma_outside(keys, kid, low, high, i as int, range@);
                            assert(one =~= Seq::<Entry>::empty());
                            assert(mid + one =~= mid);
                        }
                    }
                }
                proof {
                    if good {
                        assert(entry_models(results@) == mid + one);
                        assert(had + first + one =~= had + (first + one));
                    }
                }
                j += 1;
            }
            proof {
                if good {
                    assert(kids.skip(0) =~= kids);
                    assert(kids.take(n + 1) =~= kids);
                    assert(next.take(next.len() as int) =~= next);
                }
            }
            Ok(true)
        },
        _ => Err(wrong_page_type(page_id)),
    }
}

/// The kids up to one, that one, and the rest, in the order they are read.
proof fn lemma_kid_next(kids: Seq<Tree>, i: int, range: RangeModel, backward: bool)
    requires
        0 <= i < kids.len(),
    ensures
        ({
            let below = contents_list(kids.take(i));
            let one = contents(kids[i]);
            let above = contents_list(kids.skip(i + 1));
            let a = read_order(in_range(below, range), backward);
            let b = read_order(in_range(one, range), backward);
            let c = read_order(in_range(above, range), backward);
            &&& contents_list(kids.take(i + 1)) == below + one
            &&& contents_list(kids.skip(i)) == one + above
            &&& if backward {
                &&& read_order(in_range(contents_list(kids), range), backward) == c + b + a
                &&& read_order(in_range(contents_list(kids.skip(i)), range), backward) == c + b
            } else {
                &&& read_order(in_range(contents_list(kids), range), backward) == a + b + c
                &&& read_order(in_range(contents_list(kids.take(i + 1)), range), backward) == a + b
            }
        }),
{
    let below = contents_list(kids.take(i));
    let one = contents(kids[i]);
    let above = contents_list(kids.skip(i + 1));
    lemma_list_around(kids, i);
    lemma_single_list(kids[i]);
    assert(kids.take(i + 1) =~= kids.take(i) + seq![kids[i]]);
    assert(kids.skip(i) =~= seq![kids[i]] + kids.skip(i + 1));
    lemma_contents_concat(kids.take(i), seq![kids[i]]);
    lemma_contents_concat(seq![kids[i]], kids.skip(i + 1));
    lemma_two_parts(below + one, above, range, backward);
    lemma_two_parts(below, one, range, backward);
    lemma_two_parts(one, above, range, backward);
    let a = read_order(in_range(below, range), backward);
    let b = read_order(in_range(one, range), backward);
    let c = read_order(in_range(above, range), backward);
    if backward {
        assert(c + (b + a) =~= c + b + a);
    }
}

/// The part of a range that lies at one of its ends.
pub open spec fn is_end(all: Seq<Entry>, some: Seq<Entry>, backward: bool) -> bool {
    &&& some.len() <= all.len()
    &&& some == if backward {
        all.skip(all.len() - some.len())
    } else {
        all.take(some.len() as int)
    }
}

/// The entries with a key in `range`, sorted by key. Where `want` are enough, no
/// more leaves are read than hold as many: the last ones if `backward`, else
/// the first ones. `true` if these are all.
pub fn walk_part<S: PageStore>(
    store: &S,
    root: PageId,
    range: &KeyRange,
    backward: bool,
    want: Option<usize>,
    Ghost(t): Ghost<Tree>,
) -> (r: IoResult<(Vec<(Vec<u8>, RecordLocation)>, bool)>)
    requires
        store.wf(),
    ensures
        is_tree(store.pages(), root, t) ==> match r {
            Ok((found, whole)) => {
                let all = in_range(contents(t), range@);
                &&& is_end(all, entry_models(found@), backward)
                &&& whole ==> entry_models(found@) == all
            },
            Err(_) => !store.reliable(),
        },
        want is None ==> (r matches Ok((_, whole)) ==> whole),
{
    let ghost good = is_tree(store.pages(), root, t);
    let ghost all = in_range(contents(t), range@);
    let mut results: Vec<(Vec<u8>, RecordLocation)> = Vec::new();
    let ghost none = entry_models(results@);
    proof {
        if good {
            trees_are_flat(t);
        }
    }
    let whole: bool = match walk_below(
        store,
        root,
        range,
        backward,
        want,
        MAX_LEVELS,
        &mut results,
        Ghost(t),
        Ghost(Seq::empty()),
        Ghost(None),
    ) {
        Ok(whole) => whole,
        Err(e) => return Err(e),
    };
    let ghost read = entry_models(results@);
    proof {
        assert(none =~= Seq::<Entry>::empty());
        if good {
            assert(read =~= read_order(all, backward).take(read.len() as int));
        }
    }
    if backward {
        let found = reversed(results);
        proof {
            if good {
                let k = read.len() as int;
                assert(entry_models(found@) =~= all.skip(all.len() - k)) by {
                    assert forall|i: int| 0 <= i < k implies entry_models(found@)[i]
                        == all[all.len() - k + i] by {
                        assert(read[k - 1 - i] == all.reverse()[k - 1 - i]);
                    }
                }
                if whole {
                    assert(all.skip(0) =~= all);
                }
            }
        }
        Ok((found, whole))
    } else {
        proof {
            if good && whole {
                assert(all.take(all.len() as int) =~= all);
            }
        }
        Ok((results, whole))
    }
}

} // verus!

//! Down a B-tree to a leaf, and along its leaves.

use super::btree::{lemma_branch_cells_injective, lemma_leaf_cells_injective, route, wrong_page_type};
use super::entries::{
    find, has_key, in_range, key_position, lemma_has_key, lemma_in_range_none, lemma_in_range_parts,
    lemma_in_range_push, lemma_key_position, removed, sorted,
};
use super::node::{branch_keys, branch_kids, entry_models, read_branch, read_leaf};
use super::range::{KeyRange, RangeModel};
use super::reach::{
    along, is_branch, is_leaf, leaf_found, leaf_towards, lemma_branch_of, lemma_leaf_of, page_at,
    page_numbers, scanned,
};
use super::shape::{
    chained, lemma_chain_length, lemma_leaves, lemma_step_down, on_the_way,
};
use super::tree::{
    after_kid, branch_cells, contents, contents_list, high_bound, ids, ids_list, is_tree,
    leaf_cells, leaves, lemma_contains_concat, lemma_contents_concat, lemma_contents_in_order,
    lemma_kid_ids, lemma_list_around, lemma_no_duplicates_parts, lemma_root_in_ids,
    lemma_single_list, low_bound, roots, sound, stored, Entry, Tree,
};
use crate::catalog::chain::listed;
use crate::decode::corrupt;
use crate::error::{ErrorKind, IoResult};
use crate::order::{
    bytes_less, bytes_lt, lemma_le_is_not_gt, lemma_lt_asymmetric, lemma_lt_le_transitive,
};
use crate::storage::page::{live, parse_page};
use crate::storage::{PageId, PageStore, PageType, RecordLocation, SlottedPage};
use vstd::prelude::*;
use vstd::slice::slice_to_vec;

verus! {

/// Whether leaf `at` of the tree `t` is the one that holds `key`, if any
/// does: everything before it is below `key`, everything after it above.
pub open spec fn leaf_for(t: Tree, at: int, key: Seq<u8>) -> bool {
    let row = leaves(t);
    &&& 0 <= at < row.len()
    &&& row[at] is Leaf
    &&& forall|i: int|
        0 <= i < contents_list(row.take(at)).len() ==> bytes_lt(
            (#[trigger] contents_list(row.take(at))[i]).0,
            key,
        )
    &&& forall|i: int|
        0 <= i < contents_list(row.skip(at + 1)).len() ==> bytes_lt(
            key,
            (#[trigger] contents_list(row.skip(at + 1))[i]).0,
        )
}

/// Descends from `root` to the leaf that holds (or would hold) `key`.
pub fn find_leaf<S: PageStore>(
    store: &S,
    root: PageId,
    key: &[u8],
    Ghost(t): Ghost<Tree>,
) -> (r: IoResult<(PageId, SlottedPage, Ghost<int>)>)
    requires
        store.wf(),
    ensures
        r matches Ok((id, page, _)) ==> page.wf() && store.pages().dom().contains(id) && parse_page(
            store.pages()[id],
        ) == Some(page@) && page@.kind == PageType::IndexLeaf,
        is_tree(store.pages(), root, t) ==> match r {
            Ok((id, _, at)) => leaf_for(t, at@, key@) && leaves(t)[at@].id() == id,
            Err(_) => !store.reliable(),
        },
        match r {
            Ok((id, _, _)) => leaf_found(store.pages(), root, key@) == Some(id),
            Err(e) => !store.reliable() || (leaf_found(store.pages(), root, key@) is None && e.kind
                == ErrorKind::InvalidData),
        },
{
    let ghost pages = store.pages();
    let ghost good = is_tree(pages, root, t);
    let ghost row = leaves(t);
    let ghost mut cur = t;
    let ghost mut left: Seq<Tree> = seq![];
    let ghost mut right: Seq<Tree> = seq![];
    let ghost mut low: Seq<u8> = seq![];
    let ghost mut high: Option<Seq<u8>> = None;
    let ghost mut after: PageId = 0;
    proof {
        if good {
            assert(left + leaves(t) + right =~= leaves(t));
            assert(contents_list(left) =~= Seq::<Entry>::empty());
        }
    }
    let mut page_id: PageId = root;
    let mut seen: Vec<PageId> = Vec::new();
    loop
        invariant
            store.wf(),
            pages == store.pages(),
            good == is_tree(pages, root, t),
            row == leaves(t),
            leaf_found(pages, root, key@) == leaf_towards(
                pages,
                page_id,
                key@,
                seen@,
                (page_numbers() - seen@.len()) as nat,
            ),
            good ==> {
                &&& sound(pages, cur, low, high, after)
                &&& cur.id() == page_id
                &&& forall|p: PageId| #[trigger] seen@.contains(p) ==> !ids(cur).contains(p)
                &&& on_the_way(row, left, cur, right, key@)
                &&& !bytes_lt(key@, low)
                &&& (high matches Some(h) ==> bytes_lt(key@, h))
            },
        decreases usize::MAX - seen.len(),
    {
        assert(seen.len() <= usize::MAX);
        if listed(&seen, page_id) {
            proof {
                if good {
                    lemma_root_in_ids(cur);
                }
            }
            return Err(corrupt("a page of an index leads back to itself"));
        }
        let bytes = match store.read_page(page_id) {
            Ok(bytes) => bytes,
            Err(e) => return Err(e),
        };
        let page = match SlottedPage::from_bytes(bytes) {
            Ok(page) => page,
            Err(e) => return Err(e),
        };
        assert(page_at(pages, page_id) == Some(page@));
        match page.page_type() {
            PageType::IndexLeaf => {
                let ghost at = left.len() as int;
                proof {
                    if good {
                        assert(leaves(cur) =~= seq![cur]);
                        assert(row[at] == cur);
                        assert(row.take(at) =~= left);
                        assert(row.skip(at + 1) =~= right);
                    }
                }
                return Ok((page_id, page, Ghost(at)));
            },
            PageType::IndexBranch => {
                let entries = match read_branch(&page) {
                    Ok(entries) => entries,
                    Err(e) => {
                        proof {
                            assert(forall|keys: Seq<Seq<u8>>, kids: Seq<PageId>|
                                !#[trigger] is_branch(page@, keys, kids));
                            if good {
                                assert(live(page@.slots) == branch_cells(
                                    cur->keys,
                                    roots(cur->kids),
                                ));
                            }
                        }
                        return Err(e);
                    },
                };
                let idx: usize = route(&entries, key);
                let child: PageId = if idx < entries.len() {
                    entries[idx].1
                } else {
                    page.next_page()
                };
                proof {
                    lemma_branch_of(
                        page@,
                        branch_keys(entries@),
                        branch_kids(entries@, page@.next),
                    );
                    assert(child == branch_kids(entries@, page@.next)[idx as int]);
                    if good {
                        lemma_branch_cells_injective(
                            branch_keys(entries@),
                            branch_kids(entries@, page@.next),
                            cur->keys,
                            roots(cur->kids),
                        );
                        let at = idx as int;
                        let sides = lemma_step_down(
                            pages,
                            row,
                            left,
                            cur,
                            right,
                            key@,
                            low,
                            high,
                            after,
                            at,
                        );
                        assert(child == roots(cur->kids)[at]);
                        lemma_below(cur, at, seen@);
                        left = sides.0;
                        right = sides.1;
                        let next = cur->kids[at];
                        let l = low_bound(cur->keys, low, at);
                        let h = high_bound(cur->keys, high, at);
                        let a = after_kid(cur->kids, at, after);
                        cur = next;
                        low = l;
                        high = h;
                        after = a;
                    }
                }
                seen.push(page_id);
                page_id = child;
            },
            _ => return Err(wrong_page_type(page_id)),
        }
    }
}

/// The pages of a kid are none of those above it.
proof fn lemma_below(t: Tree, at: int, seen: Seq<PageId>)
    requires
        t is Branch,
        0 <= at < t->kids.len(),
        ids(t).no_duplicates(),
        forall|p: PageId| #[trigger] seen.contains(p) ==> !ids(t).contains(p),
    ensures
        forall|p: PageId| #[trigger]
            seen.push(t.id()).contains(p) ==> !ids(t->kids[at]).contains(p),
{
    let own = seq![t.id()];
    let below = ids_list(t->kids);
    lemma_no_duplicates_parts(own, below);
    assert(own[0] == t.id());
    assert forall|p: PageId| #[trigger] seen.push(t.id()).contains(p) implies !ids(
        t->kids[at],
    ).contains(p) by {
        let went = seen.push(t.id());
        let i = choose|i: int| 0 <= i < went.len() && went[i] == p;
        if ids(t->kids[at]).contains(p) {
            lemma_kid_ids(t->kids, at, p);
            lemma_contains_concat(own, below, p);
            if i < seen.len() {
                assert(seen.contains(seen[i]));
            } else {
                assert(own.contains(p));
            }
        }
    }
}

/// What the leaf that `key` leads to says of the whole tree.
pub proof fn lemma_leaf_decides(
    pages: Map<PageId, Seq<u8>>,
    root: PageId,
    t: Tree,
    at: int,
    key: Seq<u8>,
)
    requires
        is_tree(pages, root, t),
        leaf_for(t, at, key),
    ensures
        contents(t) == contents_list(leaves(t).take(at)) + leaves(t)[at]->entries + contents_list(
            leaves(t).skip(at + 1),
        ),
        find(contents(t), key) == find(leaves(t)[at]->entries, key),
        removed(contents(t), key) == contents_list(leaves(t).take(at)) + removed(
            leaves(t)[at]->entries,
            key,
        ) + contents_list(leaves(t).skip(at + 1)),
        sorted(contents(t)),
        sorted(leaves(t)[at]->entries),
        stored(pages, leaves(t)[at]),
{
    let row = leaves(t);
    lemma_leaves(pages, t, 0);
    lemma_list_around(row, at);
    let a = contents_list(row.take(at));
    let b = row[at]->entries;
    let c = contents_list(row.skip(at + 1));
    assert(contents(row[at]) == b);
    lemma_contents_in_order(t, seq![], None);
    super::entries::lemma_removed_in_middle(a, b, c, key);
    assert forall|i: int, j: int| 0 <= i < j < b.len() implies bytes_lt(
        (#[trigger] b[i]).0,
        (#[trigger] b[j]).0,
    ) by {
        let all = contents(t);
        assert(all[a.len() + i] == b[i]);
        assert(all[a.len() + j] == b[j]);
    }
}

/// Where `key` is among a leaf's entries.
pub fn find_entry(entries: &Vec<(Vec<u8>, RecordLocation)>, key: &[u8]) -> (r: Option<usize>)
    ensures
        match r {
            Some(i) => i < entries@.len() && entries@[i as int].0@ == key@ && (sorted(
                entry_models(entries@),
            ) ==> i == key_position(entry_models(entries@), key@) && has_key(
                entry_models(entries@),
                key@,
            )),
            None => !has_key(entry_models(entries@), key@),
        },
{
    let ghost models = entry_models(entries@);
    let n: usize = entries.len();
    for i in 0..n
        invariant
            n == entries@.len(),
            models == entry_models(entries@),
            forall|k: int| 0 <= k < i ==> (#[trigger] models[k]).0 != key@,
    {
        if crate::bytes::bytes_equal(entries[i].0.as_slice(), key) {
            proof {
                assert(models[i as int].0 == key@);
                if sorted(models) {
                    lemma_has_key(models, key@, i as int);
                }
            }
            return Some(i);
        }
        assert(models[i as int].0 != key@);
    }
    proof {
        lemma_key_position(models, key@);
        if has_key(models, key@) {
            assert(models[key_position(models, key@)].0 != key@);
        }
    }
    None
}

/// The entries from `start` on in a leaf that a range holds, up to its end;
/// `true` once the end is passed.
fn take_in_range(
    entries: &Vec<(Vec<u8>, RecordLocation)>,
    range: &KeyRange,
    results: &mut Vec<(Vec<u8>, RecordLocation)>,
) -> (ended: bool)
    ensures
        sorted(entry_models(entries@)) ==> entry_models(final(results)@) == entry_models(
            old(results)@,
        ) + in_range(entry_models(entries@), range@),
        ended ==> exists|i: int|
            0 <= i < entries@.len() && (range@.end matches Some(end) && !bytes_lt(
                (#[trigger] entry_models(entries@)[i]).0,
                end,
            )),
{
    let ghost models = entry_models(entries@);
    let ghost start = entry_models(results@);
    let n: usize = entries.len();
    assert(models.take(0) =~= Seq::<Entry>::empty());
    assert(in_range(models.take(0), range@) =~= Seq::<Entry>::empty()) by {
        reveal(Seq::filter);
    }
    assert(start + in_range(models.take(0), range@) =~= start);
    for i in 0..n
        invariant
            n == entries@.len(),
            models == entry_models(entries@),
            start == entry_models(old(results)@),
            entry_models(results@) == start + in_range(models.take(i as int), range@),
    {
        let key: &[u8] = entries[i].0.as_slice();
        assert(models[i as int].0 == key@);
        let past: bool = match &range.end {
            Some(end) => !bytes_less(key, end.as_slice()),
            None => false,
        };
        if past {
            proof {
                if sorted(models) {
                    let end = range@.end->Some_0;
                    let rest = models.skip(i as int);
                    assert forall|k: int| 0 <= k < rest.len() implies !range@.has(
                        (#[trigger] rest[k]).0,
                    ) by {
                        assert(rest[k] == models[i + k]);
                        lemma_le_is_not_gt(end, models[i as int].0);
                        if k > 0 {
                            assert(bytes_lt(models[i as int].0, models[i + k].0));
                            lemma_lt_le_transitive(end, models[i as int].0, models[i + k].0);
                            lemma_lt_asymmetric(end, models[i + k].0);
                        }
                    }
                    lemma_in_range_none(rest, range@);
                    lemma_in_range_parts(models.take(i as int), rest, range@);
                    assert(models.take(i as int) + rest =~= models);
                    assert(in_range(models.take(i as int), range@) + Seq::<Entry>::empty()
                        =~= in_range(models.take(i as int), range@));
                }
            }
            return true;
        }
        proof {
            assert(models.take(i + 1) =~= models.take(i as int).push(models[i as int]));
            lemma_in_range_push(models.take(i as int), models[i as int], range@);
        }
        let ghost before = results@;
        if !bytes_less(key, range.start.as_slice()) {
            results.push((slice_to_vec(key), entries[i].1));
            assert(entry_models(results@) =~= entry_models(before).push(models[i as int]));
            assert(entry_models(results@) =~= start + in_range(models.take(i + 1), range@));
        }
    }
    assert(models.take(n as int) =~= models);
    false
}

/// Every entry with a key in `range`: descends to the leaf where its start
/// would be, then walks the leaf chain until a key reaches its end. Results
/// come back sorted by key: leaves chain left to right in key order, and
/// each leaf's cells are sorted.
pub fn walk_range<S: PageStore>(
    store: &S,
    root: PageId,
    range: &KeyRange,
    Ghost(t): Ghost<Tree>,
) -> (r: IoResult<Vec<(Vec<u8>, RecordLocation)>>)
    requires
        store.wf(),
    ensures
        is_tree(store.pages(), root, t) ==> match r {
            Ok(found) => entry_models(found@) == in_range(contents(t), range@),
            Err(_) => !store.reliable(),
        },
{
    let ghost pages = store.pages();
    let ghost good = is_tree(pages, root, t);
    let ghost row = leaves(t);
    let (mut page_id, mut page, first) = match find_leaf(
        store,
        root,
        range.start.as_slice(),
        Ghost(t),
    ) {
        Ok(found) => found,
        Err(e) => return Err(e),
    };
    let ghost mut at = first@;
    let mut results: Vec<(Vec<u8>, RecordLocation)> = Vec::new();
    let mut steps: u64 = 0;
    proof {
        if good {
            lemma_leaves(pages, t, 0);
            lemma_chain_length(t);
            lemma_contents_in_order(t, seq![], None);
            let before = contents_list(row.take(at));
            assert forall|i: int| 0 <= i < before.len() implies !range@.has(
                (#[trigger] before[i]).0,
            ) by {
                assert(bytes_lt(before[i].0, range@.start));
            }
            lemma_in_range_none(before, range@);
            assert(entry_models(results@) =~= Seq::<Entry>::empty());
        }
    }
    loop
        invariant
            store.wf(),
            pages == store.pages(),
            good == is_tree(pages, root, t),
            row == leaves(t),
            page.wf(),
            store.pages().dom().contains(page_id) && parse_page(store.pages()[page_id]) == Some(
                page@,
            ),
            good ==> {
                &&& 0 <= at < row.len()
                &&& row[at].id() == page_id
                &&& steps <= at
                &&& row.len() <= 0x1_0000_0000_0000_0000
                &&& chained(pages, row, 0)
                &&& contents(t) == contents_list(row)
                &&& sorted(contents(t))
                &&& entry_models(results@) == in_range(contents_list(row.take(at)), range@)
            },
        decreases u64::MAX - steps,
    {
        let entries = match read_leaf(&page) {
            Ok(entries) => entries,
            Err(e) => {
                proof {
                    if good {
                        assert(row[at] is Leaf && stored(pages, row[at]));
                        assert(live(page@.slots) == leaf_cells(row[at]->entries));
                    }
                }
                return Err(e);
            },
        };
        let ghost models = entry_models(entries@);
        let ghost here = row[at];
        let ghost a = contents_list(row.take(at));
        let ghost c = contents_list(row.skip(at + 1));
        proof {
            if good {
                assert(here is Leaf && stored(pages, here));
                lemma_leaf_cells_injective(models, here->entries);
                lemma_list_around(row, at);
                assert(contents(here) == models);
                lemma_middle_sorted(a, models, c);
            }
        }
        let ended: bool = take_in_range(&entries, range, &mut results);
        proof {
            if good {
                lemma_in_range_parts(a, models, range@);
            }
        }
        if ended {
            proof {
                if good {
                    lemma_rest_out_of_range(a, models, c, range@);
                    lemma_in_range_parts(a + models, c, range@);
                    assert(in_range(a + models, range@) + Seq::<Entry>::empty() =~= in_range(
                        a + models,
                        range@,
                    ));
                }
            }
            return Ok(results);
        }
        let next: PageId = page.next_page();
        proof {
            if good {
                assert(here->next == after_kid(row, at, 0));
                store.lemma_pages();
                lemma_single_list(here);
                assert(row.take(at + 1) =~= row.take(at) + seq![here]);
                lemma_contents_concat(row.take(at), seq![here]);
                if at + 1 < row.len() {
                    assert(row[at + 1] is Leaf && stored(pages, row[at + 1]));
                }
            }
        }
        if next == 0 {
            proof {
                if good {
                    assert(at + 1 == row.len());
                    assert(row.take(at + 1) =~= row);
                }
            }
            return Ok(results);
        }
        if steps == u64::MAX {
            return Err(corrupt("an index's leaves are linked in a circle"));
        }
        steps = steps + 1;
        let bytes = match store.read_page(next) {
            Ok(bytes) => bytes,
            Err(e) => return Err(e),
        };
        page = match SlottedPage::from_bytes(bytes) {
            Ok(page) => page,
            Err(e) => return Err(e),
        };
        page_id = next;
        proof {
            at = at + 1;
        }
        match page.page_type() {
            PageType::IndexLeaf => {},
            _ => return Err(wrong_page_type(page_id)),
        }
    }
}

/// Every entry of an index, leaf by leaf from the leftmost on.
pub fn walk_all<S: PageStore>(store: &S, root: PageId, Ghost(t): Ghost<Tree>) -> (r: IoResult<
    Vec<(Vec<u8>, RecordLocation)>,
>)
    requires
        store.wf(),
    ensures
        is_tree(store.pages(), root, t) ==> match r {
            Ok(found) => entry_models(found@) == contents(t),
            Err(_) => !store.reliable(),
        },
        match r {
            Ok(found) => scanned(store.pages(), root) == Some(entry_models(found@)),
            Err(e) => !store.reliable() || (scanned(store.pages(), root) is None && e.kind
                == ErrorKind::InvalidData),
        },
{
    let ghost pages = store.pages();
    let ghost good = is_tree(pages, root, t);
    let ghost row = leaves(t);
    let lowest: Vec<u8> = Vec::new();
    let (mut page_id, mut page, first) = match find_leaf(store, root, lowest.as_slice(), Ghost(t)) {
        Ok(found) => found,
        Err(e) => {
            assert(lowest@ =~= seq![]);
            return Err(e);
        },
    };
    let ghost mut at = first@;
    let mut results: Vec<(Vec<u8>, RecordLocation)> = Vec::new();
    let mut steps: u64 = 0;
    proof {
        assert(lowest@ =~= seq![]);
        if good {
            lemma_leaves(pages, t, 0);
            lemma_chain_length(t);
            let before = contents_list(row.take(at));
            assert(before =~= Seq::<Entry>::empty()) by {
                if before.len() > 0 {
                    assert(bytes_lt(before[0].0, lowest@));
                }
            }
        }
        assert(entry_models(results@) =~= Seq::<Entry>::empty());
        lemma_joined_front(entry_models(results@), along(pages, page_id, steps_left(steps)));
    }
    loop
        invariant
            store.wf(),
            pages == store.pages(),
            good == is_tree(pages, root, t),
            row == leaves(t),
            page.wf(),
            page@.kind == PageType::IndexLeaf,
            page_at(pages, page_id) == Some(page@),
            scanned(pages, root) == joined(
                entry_models(results@),
                along(pages, page_id, steps_left(steps)),
            ),
            good ==> {
                &&& 0 <= at < row.len()
                &&& row[at].id() == page_id
                &&& steps <= at
                &&& row.len() <= 0x1_0000_0000_0000_0000
                &&& chained(pages, row, 0)
                &&& contents(t) == contents_list(row)
                &&& entry_models(results@) == contents_list(row.take(at))
            },
        decreases u64::MAX - steps,
    {
        let mut entries = match read_leaf(&page) {
            Ok(entries) => entries,
            Err(e) => {
                proof {
                    assert(forall|entries: Seq<Entry>| !#[trigger] is_leaf(page@, entries));
                    if good {
                        assert(row[at] is Leaf && stored(pages, row[at]));
                        assert(live(page@.slots) == leaf_cells(row[at]->entries));
                    }
                }
                return Err(e);
            },
        };
        let ghost models = entry_models(entries@);
        let ghost here = row[at];
        let ghost so_far = entry_models(results@);
        proof {
            lemma_leaf_of(page@, models);
            if good {
                assert(here is Leaf && stored(pages, here));
                lemma_leaf_cells_injective(models, here->entries);
                assert(contents(here) == models);
                lemma_single_list(here);
                assert(row.take(at + 1) =~= row.take(at) + seq![here]);
                lemma_contents_concat(row.take(at), seq![here]);
            }
        }
        results.append(&mut entries);
        let next: PageId = page.next_page();
        proof {
            assert(entry_models(results@) =~= so_far + models);
            if good {
                assert(here->next == after_kid(row, at, 0));
                store.lemma_pages();
                if at + 1 < row.len() {
                    assert(row[at + 1] is Leaf && stored(pages, row[at + 1]));
                }
            }
        }
        if next == 0 {
            proof {
                if good {
                    assert(at + 1 == row.len());
                    assert(row.take(at + 1) =~= row);
                }
            }
            return Ok(results);
        }
        if steps == u64::MAX {
            proof {
                assert(steps_left(steps) == 1);
                assert(along(pages, next, 0) is None);
                assert(along(pages, page_id, 1) is None);
            }
            return Err(corrupt("an index's leaves are linked in a circle"));
        }
        proof {
            lemma_joined_step(so_far, models, along(pages, next, steps_left((steps + 1) as u64)));
        }
        steps = steps + 1;
        let bytes = match store.read_page(next) {
            Ok(bytes) => bytes,
            Err(e) => return Err(e),
        };
        page = match SlottedPage::from_bytes(bytes) {
            Ok(page) => page,
            Err(e) => return Err(e),
        };
        page_id = next;
        proof {
            at = at + 1;
        }
        match page.page_type() {
            PageType::IndexLeaf => {},
            _ => {
                assert(forall|entries: Seq<Entry>| !#[trigger] is_leaf(page@, entries));
                return Err(wrong_page_type(page_id));
            },
        }
    }
}

/// How many leaves a walk may still read.
spec fn steps_left(steps: u64) -> nat {
    (0x1_0000_0000_0000_0000 - steps) as nat
}

/// Entries and those after them, if there are.
spec fn joined(front: Seq<Entry>, rest: Option<Seq<Entry>>) -> Option<Seq<Entry>> {
    match rest {
        Some(rest) => Some(front + rest),
        None => None,
    }
}

proof fn lemma_joined_front(front: Seq<Entry>, rest: Option<Seq<Entry>>)
    requires
        front.len() == 0,
    ensures
        joined(front, rest) == rest,
{
    if let Some(more) = rest {
        assert(front + more =~= more);
    }
}

proof fn lemma_joined_step(front: Seq<Entry>, middle: Seq<Entry>, rest: Option<Seq<Entry>>)
    ensures
        joined(front, joined(middle, rest)) == joined(front + middle, rest),
{
    if let Some(more) = rest {
        assert(front + (middle + more) =~= (front + middle) + more);
    }
}

/// The middle of sorted entries is sorted.
proof fn lemma_middle_sorted(a: Seq<Entry>, b: Seq<Entry>, c: Seq<Entry>)
    requires
        sorted(a + b + c),
    ensures
        sorted(b),
{
    let all = a + b + c;
    assert forall|i: int, j: int| 0 <= i < j < b.len() implies bytes_lt(
        (#[trigger] b[i]).0,
        (#[trigger] b[j]).0,
    ) by {
        assert(all[a.len() + i] == b[i]);
        assert(all[a.len() + j] == b[j]);
    }
}

/// Once a key has reached the end of a range, no later one is in it.
proof fn lemma_rest_out_of_range(
    a: Seq<Entry>,
    b: Seq<Entry>,
    c: Seq<Entry>,
    range: RangeModel,
)
    requires
        sorted(a + b + c),
        exists|i: int|
            0 <= i < b.len() && (range.end matches Some(end) && !bytes_lt((#[trigger] b[i]).0, end)),
    ensures
        in_range(c, range) == Seq::<Entry>::empty(),
{
    let i = choose|i: int|
        0 <= i < b.len() && (range.end matches Some(end) && !bytes_lt((#[trigger] b[i]).0, end));
    let end = range.end->Some_0;
    let all = a + b + c;
    lemma_le_is_not_gt(end, b[i].0);
    assert forall|k: int| 0 <= k < c.len() implies !range.has((#[trigger] c[k]).0) by {
        assert(all[a.len() + i] == b[i]);
        assert(all[a.len() + b.len() + k] == c[k]);
        assert(bytes_lt(b[i].0, c[k].0));
        lemma_lt_le_transitive(end, b[i].0, c[k].0);
        lemma_lt_asymmetric(end, c[k].0);
    }
    lemma_in_range_none(c, range);
}

} // verus!

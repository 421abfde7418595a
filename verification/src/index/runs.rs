//! The leaves of a B-tree, and how they fill when keys come in order.

use super::key::MAX_KEY_LEN;
use super::node::{leaf_sizes, page_room, total, CAPACITY};
use super::tree::{
    balanced, child_index, contents, contents_list, high_bound, ids, ids_list, kids_in_order,
    lemma_child_index_is, lemma_contents_concat, lemma_contents_in_order, lemma_root_in_ids,
    lemma_single_list, low_bound, tree_at, Entry, Tree,
};
use crate::order::{
    bytes_lt, lemma_le_is_not_gt, lemma_lt_asymmetric, lemma_lt_le_transitive, lemma_lt_transitive,
};
use crate::storage::PageId;
use vstd::prelude::*;

verus! {

/// What each leaf of a tree holds, from left to right.
pub open spec fn runs(t: Tree) -> Seq<Seq<Entry>>
    decreases t,
{
    match t {
        Tree::Leaf { entries, .. } => seq![entries],
        Tree::Branch { kids, .. } => runs_list(kids),
    }
}

pub open spec fn runs_list(kids: Seq<Tree>) -> Seq<Seq<Entry>>
    decreases kids,
{
    if kids.len() == 0 {
        seq![]
    } else {
        runs(kids[0]) + runs_list(kids.skip(1))
    }
}

/// What each leaf of the tree at `root` holds.
pub open spec fn leaf_runs(pages: Map<PageId, Seq<u8>>, root: PageId) -> Seq<Seq<Entry>> {
    runs(tree_at(pages, root))
}

/// Whether entries fit in a leaf.
pub open spec fn fits_leaf(entries: Seq<Entry>) -> bool {
    page_room(leaf_sizes(entries)) <= CAPACITY
}

/// The leaves once an entry comes behind all others: in the last one if it
/// fits there, else in a new one.
pub open spec fn appended(all: Seq<Seq<Entry>>, e: Entry) -> Seq<Seq<Entry>> {
    let last = all.last().push(e);
    if fits_leaf(last) {
        all.drop_last().push(last)
    } else {
        all.push(seq![e])
    }
}

/// The leaves of a tree into which these entries came one after the other.
pub open spec fn filled(entries: Seq<Entry>) -> Seq<Seq<Entry>>
    decreases entries.len(),
{
    if entries.len() == 0 {
        seq![seq![]]
    } else {
        appended(filled(entries.drop_last()), entries.last())
    }
}

/// Whether no leaf but the last has room for the first entry of the next.
pub open spec fn full_but_last(all: Seq<Seq<Entry>>) -> bool {
    forall|i: int|
        0 <= i < all.len() - 1 ==> (#[trigger] all[i + 1]).len() > 0 && !fits_leaf(
            all[i].push(all[i + 1][0]),
        )
}

/// Whether the leaves of the tree at `root` are full: none but the last has
/// room for the first entry of the next.
pub open spec fn leaves_full(pages: Map<PageId, Seq<u8>>, root: PageId) -> bool {
    full_but_last(leaf_runs(pages, root))
}

/// Leaves that were filled in order are full.
pub proof fn filled_leaves_are_full(entries: Seq<Entry>)
    ensures
        full_but_last(filled(entries)),
        filled(entries).len() > 0,
        entries.len() > 0 ==> filled(entries).last().len() > 0,
        entries.len() == 0 ==> filled(entries) == seq![Seq::<Entry>::empty()],
    decreases entries.len(),
{
    let all = filled(entries);
    if entries.len() > 0 {
        let front = entries.drop_last();
        filled_leaves_are_full(front);
        let were = filled(front);
        let e = entries.last();
        let last = were.last().push(e);
        assert forall|i: int| 0 <= i < all.len() - 1 implies (#[trigger] all[i + 1]).len() > 0
            && !fits_leaf(all[i].push(all[i + 1][0])) by {
            if i + 1 < were.len() - 1 {
                assert(all[i + 1] == were[i + 1]);
                assert(all[i] == were[i]);
            } else if i + 1 == were.len() - 1 {
                assert(were[i + 1].len() > 0);
                assert(all[i] == were[i]);
                assert(all[i + 1][0] == were[i + 1][0]);
            } else {
                assert(!fits_leaf(last));
                assert(all[i + 1] == seq![e]);
                assert(all[i] == were.last());
            }
        }
    }
}

/// Whether a key comes behind all that a tree holds, and the tree is the last
/// part of its index, its last leaf not an empty one beside others.
pub open spec fn at_edge(t: Tree, key: Seq<u8>, after: PageId) -> bool {
    &&& after == 0
    &&& forall|i: int| 0 <= i < contents(t).len() ==> bytes_lt((#[trigger] contents(t)[i]).0, key)
    &&& t is Branch ==> runs(t).last().len() > 0
}

/// Whether leaves are as an entry at the edge leaves them.
pub open spec fn edge_kept(t: Tree, e: Entry, after: PageId, now: Seq<Seq<Entry>>) -> bool {
    at_edge(t, e.0, after) ==> now == appended(runs(t), e)
}

pub proof fn lemma_runs_concat(a: Seq<Tree>, b: Seq<Tree>)
    ensures
        runs_list(a + b) == runs_list(a) + runs_list(b),
    decreases a.len(),
{
    if a.len() == 0 {
        assert(a + b =~= b);
        assert(runs_list(a) + runs_list(b) =~= runs_list(b));
    } else {
        lemma_runs_concat(a.skip(1), b);
        assert((a + b).skip(1) =~= a.skip(1) + b);
        assert((a + b)[0] == a[0]);
        assert(runs_list(a + b) =~= runs_list(a) + runs_list(b));
    }
}

pub proof fn lemma_runs_single(t: Tree)
    ensures
        runs_list(seq![t]) == runs(t),
{
    let one = seq![t];
    assert(one.skip(1) =~= Seq::<Tree>::empty());
    assert(one[0] == t);
    assert(runs_list(one.skip(1)) =~= Seq::<Seq<Entry>>::empty());
    assert(runs_list(one) =~= runs(t));
}

/// A balanced tree has a leaf.
proof fn lemma_some_leaf(t: Tree)
    requires
        balanced(t),
    ensures
        runs(t).len() > 0,
    decreases t,
{
    match t {
        Tree::Leaf { .. } => {},
        Tree::Branch { kids, .. } => {
            assert(balanced(kids[0]));
            lemma_some_leaf(kids[0]);
        },
    }
}

/// A list of balanced trees ends in the last leaf of the last one.
proof fn lemma_last_kid(kids: Seq<Tree>)
    requires
        kids.len() > 0,
        balanced(kids.last()),
    ensures
        runs_list(kids) == runs_list(kids.drop_last()) + runs(kids.last()),
        contents_list(kids) == contents_list(kids.drop_last()) + contents(kids.last()),
        runs(kids.last()).len() > 0,
        runs_list(kids).last() == runs(kids.last()).last(),
{
    let front = kids.drop_last();
    let last = kids.last();
    lemma_some_leaf(last);
    assert(kids =~= front + seq![last]);
    lemma_runs_concat(front, seq![last]);
    lemma_runs_single(last);
    lemma_contents_concat(front, seq![last]);
    lemma_single_list(last);
}

/// A tree holds what its last leaf does.
proof fn lemma_last_held(t: Tree)
    requires
        balanced(t),
        runs(t).last().len() > 0,
    ensures
        contents(t).len() > 0,
    decreases t,
{
    match t {
        Tree::Leaf { .. } => {},
        Tree::Branch { kids, .. } => {
            lemma_last_kid(kids);
            assert(kids[kids.len() - 1] == kids.last());
            lemma_last_held(kids.last());
        },
    }
}

/// A key at the edge of a branch goes to its last kid, and to the edge of that.
pub proof fn lemma_edge_kid(
    t: Tree,
    low: Seq<u8>,
    high: Option<Seq<u8>>,
    key: Seq<u8>,
)
    requires
        t is Branch,
        balanced(t),
        kids_in_order(t->keys, t->kids, low, high),
        at_edge(t, key, 0),
    ensures
        child_index(t->keys, key) == t->kids.len() - 1,
        at_edge(t->kids.last(), key, 0),
        runs(t->kids.last()).len() > 0,
        runs(t) == runs_list(t->kids.drop_last()) + runs(t->kids.last()),
{
    let keys = t->keys;
    let kids = t->kids;
    let n = keys.len() as int;
    let last = kids.last();
    assert(kids[n] == last);
    lemma_last_kid(kids);
    lemma_last_held(last);
    let all = contents(t);
    let held = contents(last);
    let before = contents_list(kids.drop_last());
    assert forall|i: int| 0 <= i < held.len() implies bytes_lt((#[trigger] held[i]).0, key) by {
        assert(all[before.len() + i] == held[i]);
    }
    lemma_contents_in_order(last, low_bound(keys, low, n), high_bound(keys, high, n));
    assert forall|i: int| 0 <= i < n implies !bytes_lt(key, #[trigger] keys[i]) by {
        let x = held[0].0;
        assert(bytes_lt(x, key));
        assert(!bytes_lt(x, keys[n - 1]));
        lemma_le_is_not_gt(keys[n - 1], x);
        if i < n - 1 {
            assert(bytes_lt(keys[i], keys[n - 1]));
            lemma_lt_le_transitive(keys[i], keys[n - 1], x);
            lemma_lt_transitive(keys[i], x, key);
        } else if keys[i] != x {
            lemma_lt_transitive(keys[i], x, key);
        }
        lemma_lt_asymmetric(keys[i], key);
    }
    lemma_child_index_is(keys, key, n);
}

/// What comes at the end leaves what is in front.
pub proof fn lemma_appended_behind(front: Seq<Seq<Entry>>, all: Seq<Seq<Entry>>, e: Entry)
    requires
        all.len() > 0,
    ensures
        appended(front + all, e) == front + appended(all, e),
{
    assert((front + all).last() == all.last());
    assert((front + all).drop_last() =~= front + all.drop_last());
    assert(appended(front + all, e) =~= front + appended(all, e));
}

/// What a branch's leaves are once an entry went to its edge.
pub proof fn lemma_edge_branch(
    t: Tree,
    low: Seq<u8>,
    high: Option<Seq<u8>>,
    at: int,
    more: Seq<Tree>,
    now: Seq<Tree>,
    e: Entry,
    after: PageId,
    kid_after: PageId,
)
    requires
        t is Branch,
        balanced(t),
        kids_in_order(t->keys, t->kids, low, high),
        at == child_index(t->keys, e.0),
        at == t->kids.len() - 1 ==> kid_after == after,
        0 <= at < t->kids.len(),
        edge_kept(t->kids[at], e, kid_after, runs_list(more)),
        now == t->kids.take(at) + more + t->kids.skip(at + 1),
    ensures
        edge_kept(t, e, after, runs_list(now)),
{
    if at_edge(t, e.0, after) {
        let kids = t->kids;
        lemma_edge_kid(t, low, high, e.0);
        assert(kids[at] == kids.last());
        let front = kids.drop_last();
        assert(kids.take(at) =~= front);
        assert(kids.skip(at + 1) =~= Seq::<Tree>::empty());
        assert(now =~= front + more);
        lemma_runs_concat(front, more);
        lemma_appended_behind(runs_list(front), runs(kids.last()), e);
    }
}

/// A branch has more than one leaf.
pub proof fn lemma_branch_has_leaves(t: Tree)
    requires
        t is Branch,
        balanced(t),
    ensures
        runs(t).len() > 1,
{
    let kids = t->kids;
    assert(balanced(kids[0]) && balanced(kids[1]));
    lemma_some_leaf(kids[0]);
    lemma_some_leaf(kids[1]);
    let rest = kids.skip(1);
    assert(rest[0] == kids[1]);
    assert(runs(t) == runs(kids[0]) + runs_list(rest));
    assert(runs_list(rest) == runs(rest[0]) + runs_list(rest.skip(1)));
}

/// A tree of one page is a leaf.
pub proof fn lemma_lone_leaf(t: Tree)
    requires
        balanced(t),
        ids(t).len() == 1,
    ensures
        t is Leaf,
        runs(t) == seq![contents(t)],
{
    if t is Branch {
        let kids = t->kids;
        lemma_root_in_ids(kids[0]);
        assert(ids_list(kids) == ids(kids[0]) + ids_list(kids.skip(1)));
    }
}

/// An entry fits in a leaf of its own.
pub proof fn lemma_one_fits(e: Entry)
    requires
        e.0.len() <= MAX_KEY_LEN,
    ensures
        fits_leaf(seq![e]),
{
    let sizes = leaf_sizes(seq![e]);
    assert(sizes.drop_last() =~= Seq::<nat>::empty());
    assert(total(Seq::<nat>::empty()) == 0);
    assert(total(sizes) == total(sizes.drop_last()) + sizes.last());
}

} // verus!

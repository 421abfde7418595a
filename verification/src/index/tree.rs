//! What the pages of a B-tree stand for: a tree whose leaves hold the
//! entries, in order.

use super::branch::branch_cell;
use super::entries::{bounded, sorted};
use super::key::MAX_KEY_LEN;
use super::leaf::leaf_cell;
use crate::order::{bytes_lt, lemma_le_is_not_gt, lemma_lt_le_transitive, lemma_lt_transitive};
use crate::storage::page::{live, parse_page};
use crate::storage::{PageId, PageType, RecordLocation};
use vstd::prelude::*;

verus! {

/// An entry: a key, and where its record is.
pub type Entry = (Seq<u8>, RecordLocation);

/// A B-tree. A branch's `n` keys route to `n + 1` kids: kid `i` holds what
/// is below key `i` and not below the key before it.
#[verifier::ext_equal]
pub ghost enum Tree {
    Leaf { id: PageId, entries: Seq<Entry>, next: PageId },
    Branch { id: PageId, keys: Seq<Seq<u8>>, kids: Seq<Tree> },
}

impl Tree {
    /// The page of the tree's root.
    pub open spec fn id(self) -> PageId {
        match self {
            Tree::Leaf { id, .. } => id,
            Tree::Branch { id, .. } => id,
        }
    }
}

// ---------------------------------------------------------------------
// What a tree holds.

/// A tree's entries, in order.
pub open spec fn contents(t: Tree) -> Seq<Entry>
    decreases t,
{
    match t {
        Tree::Leaf { entries, .. } => entries,
        Tree::Branch { kids, .. } => contents_list(kids),
    }
}

pub open spec fn contents_list(kids: Seq<Tree>) -> Seq<Entry>
    decreases kids,
{
    if kids.len() == 0 {
        seq![]
    } else {
        contents(kids[0]) + contents_list(kids.skip(1))
    }
}

/// A tree's pages, the root first.
pub open spec fn ids(t: Tree) -> Seq<PageId>
    decreases t,
{
    match t {
        Tree::Leaf { id, .. } => seq![id],
        Tree::Branch { id, kids, .. } => seq![id] + ids_list(kids),
    }
}

pub open spec fn ids_list(kids: Seq<Tree>) -> Seq<PageId>
    decreases kids,
{
    if kids.len() == 0 {
        seq![]
    } else {
        ids(kids[0]) + ids_list(kids.skip(1))
    }
}

/// A tree's leaves, from left to right.
pub open spec fn leaves(t: Tree) -> Seq<Tree>
    decreases t,
{
    match t {
        Tree::Leaf { .. } => seq![t],
        Tree::Branch { kids, .. } => leaves_list(kids),
    }
}

pub open spec fn leaves_list(kids: Seq<Tree>) -> Seq<Tree>
    decreases kids,
{
    if kids.len() == 0 {
        seq![]
    } else {
        leaves(kids[0]) + leaves_list(kids.skip(1))
    }
}

/// How many levels are below the root.
pub open spec fn level(t: Tree) -> nat
    decreases t,
{
    match t {
        Tree::Leaf { .. } => 0,
        Tree::Branch { kids, .. } => if kids.len() == 0 {
            0
        } else {
            1 + level(kids[0])
        },
    }
}

/// Whether every leaf is equally far from the root, and every branch has at
/// least two kids.
pub open spec fn balanced(t: Tree) -> bool
    decreases t,
{
    match t {
        Tree::Leaf { .. } => true,
        Tree::Branch { kids, .. } => kids.len() >= 2 && (forall|i: int|
            0 <= i < kids.len() ==> balanced(#[trigger] kids[i]) && level(kids[i]) == level(
                kids[0],
            )),
    }
}

/// The page of the leftmost leaf.
pub open spec fn first_leaf(t: Tree) -> PageId
    decreases t,
{
    match t {
        Tree::Leaf { id, .. } => id,
        Tree::Branch { kids, .. } => if kids.len() == 0 {
            0
        } else {
            first_leaf(kids[0])
        },
    }
}

/// What follows kid `i` in the chain of leaves.
pub open spec fn after_kid(kids: Seq<Tree>, i: int, after: PageId) -> PageId {
    if i + 1 < kids.len() {
        first_leaf(kids[i + 1])
    } else {
        after
    }
}

/// Whether the leaves are linked from left to right, the last to `after`.
pub open spec fn linked(t: Tree, after: PageId) -> bool
    decreases t,
{
    match t {
        Tree::Leaf { next, .. } => next == after,
        Tree::Branch { kids, .. } => forall|i: int|
            0 <= i < kids.len() ==> linked(kids[i], #[trigger] after_kid(kids, i, after)),
    }
}

/// The lower bound of kid `i`.
pub open spec fn low_bound(keys: Seq<Seq<u8>>, low: Seq<u8>, i: int) -> Seq<u8> {
    if i == 0 {
        low
    } else {
        keys[i - 1]
    }
}

/// The upper bound of kid `i`.
pub open spec fn high_bound(keys: Seq<Seq<u8>>, high: Option<Seq<u8>>, i: int) -> Option<Seq<u8>> {
    if i < keys.len() {
        Some(keys[i])
    } else {
        high
    }
}

/// Whether separators strictly ascend, above `low` and below `high`.
pub open spec fn keys_in_order(
    keys: Seq<Seq<u8>>,
    low: Seq<u8>,
    high: Option<Seq<u8>>,
) -> bool {
    &&& forall|i: int, j: int|
        0 <= i < j < keys.len() ==> bytes_lt(#[trigger] keys[i], #[trigger] keys[j])
    &&& forall|i: int|
        0 <= i < keys.len() ==> (#[trigger] keys[i]).len() <= MAX_KEY_LEN && bytes_lt(low, keys[i])
            && (high matches Some(h) ==> bytes_lt(keys[i], h))
}

/// Whether a tree's keys lie in `[low, high)`, in order, each where its
/// branch's separators say.
pub open spec fn in_order(t: Tree, low: Seq<u8>, high: Option<Seq<u8>>) -> bool
    decreases t,
{
    match t {
        Tree::Leaf { entries, .. } => sorted(entries) && bounded(entries, low, high) && (forall|
            i: int,
        |
            0 <= i < entries.len() ==> (#[trigger] entries[i]).0.len() <= MAX_KEY_LEN),
        Tree::Branch { keys, kids, .. } => kids.len() == keys.len() + 1 && keys_in_order(
            keys,
            low,
            high,
        ) && (forall|i: int|
            0 <= i < kids.len() ==> in_order(
                #[trigger] kids[i],
                low_bound(keys, low, i),
                high_bound(keys, high, i),
            )),
    }
}

/// The kids of a branch, in order.
pub open spec fn kids_in_order(
    keys: Seq<Seq<u8>>,
    kids: Seq<Tree>,
    low: Seq<u8>,
    high: Option<Seq<u8>>,
) -> bool {
    &&& kids.len() == keys.len() + 1
    &&& keys_in_order(keys, low, high)
    &&& forall|i: int|
        0 <= i < kids.len() ==> in_order(
            #[trigger] kids[i],
            low_bound(keys, low, i),
            high_bound(keys, high, i),
        )
}

// ---------------------------------------------------------------------
// How a tree is stored.

/// The cells of a leaf.
pub open spec fn leaf_cells(entries: Seq<Entry>) -> Seq<Seq<u8>> {
    Seq::new(entries.len(), |i: int| leaf_cell(entries[i].0, entries[i].1))
}

/// The cells of a branch, one per separator.
pub open spec fn branch_cells(keys: Seq<Seq<u8>>, kids: Seq<PageId>) -> Seq<Seq<u8>> {
    Seq::new(keys.len(), |i: int| branch_cell(keys[i], kids[i]))
}

/// The pages of some trees' roots.
pub open spec fn roots(kids: Seq<Tree>) -> Seq<PageId> {
    Seq::new(kids.len(), |i: int| kids[i].id())
}

/// Whether a page's bytes are a leaf with these entries.
pub open spec fn is_leaf_page(bytes: Seq<u8>, entries: Seq<Entry>, next: PageId) -> bool {
    parse_page(bytes) matches Some(m) && m.kind == PageType::IndexLeaf && m.next == next && live(
        m.slots,
    ) == leaf_cells(entries)
}

/// Whether a page's bytes are a branch with these separators and kids. The
/// last kid is the page's link.
pub open spec fn is_branch_page(bytes: Seq<u8>, keys: Seq<Seq<u8>>, kids: Seq<PageId>) -> bool {
    parse_page(bytes) matches Some(m) && m.kind == PageType::IndexBranch && kids.len() == keys.len()
        + 1 && m.next == kids[keys.len() as int] && live(m.slots) == branch_cells(keys, kids)
}

/// Whether `pages` hold the tree.
pub open spec fn stored(pages: Map<PageId, Seq<u8>>, t: Tree) -> bool
    decreases t,
{
    match t {
        Tree::Leaf { id, entries, next } => pages.dom().contains(id) && is_leaf_page(
            pages[id],
            entries,
            next,
        ),
        Tree::Branch { id, keys, kids } => pages.dom().contains(id) && is_branch_page(
            pages[id],
            keys,
            roots(kids),
        ) && (forall|i: int| 0 <= i < kids.len() ==> stored(pages, #[trigger] kids[i])),
    }
}

/// Whether a tree is a sound part of a B-tree that `pages` hold: its keys
/// in `[low, high)`, its last leaf linked to `after`.
pub open spec fn sound(
    pages: Map<PageId, Seq<u8>>,
    t: Tree,
    low: Seq<u8>,
    high: Option<Seq<u8>>,
    after: PageId,
) -> bool {
    &&& stored(pages, t)
    &&& in_order(t, low, high)
    &&& balanced(t)
    &&& linked(t, after)
    &&& ids(t).no_duplicates()
}

/// Whether `t` is the whole B-tree with its root at `root`.
pub open spec fn is_tree(pages: Map<PageId, Seq<u8>>, root: PageId, t: Tree) -> bool {
    t.id() == root && sound(pages, t, seq![], None, 0)
}

/// Whether `pages` hold a sound B-tree at `root`.
pub open spec fn has_tree(pages: Map<PageId, Seq<u8>>, root: PageId) -> bool {
    exists|t: Tree| is_tree(pages, root, t)
}

/// The B-tree at `root`.
pub open spec fn tree_at(pages: Map<PageId, Seq<u8>>, root: PageId) -> Tree {
    choose|t: Tree| is_tree(pages, root, t)
}

// ---------------------------------------------------------------------
// Lists of kids.

pub proof fn lemma_contents_concat(a: Seq<Tree>, b: Seq<Tree>)
    ensures
        contents_list(a + b) == contents_list(a) + contents_list(b),
    decreases a.len(),
{
    if a.len() == 0 {
        assert(a + b =~= b);
        assert(contents_list(a) + contents_list(b) =~= contents_list(b));
    } else {
        lemma_contents_concat(a.skip(1), b);
        assert((a + b).skip(1) =~= a.skip(1) + b);
        assert((a + b)[0] == a[0]);
        assert(contents_list(a + b) =~= contents_list(a) + contents_list(b));
    }
}

pub proof fn lemma_ids_concat(a: Seq<Tree>, b: Seq<Tree>)
    ensures
        ids_list(a + b) == ids_list(a) + ids_list(b),
    decreases a.len(),
{
    if a.len() == 0 {
        assert(a + b =~= b);
        assert(ids_list(a) + ids_list(b) =~= ids_list(b));
    } else {
        lemma_ids_concat(a.skip(1), b);
        assert((a + b).skip(1) =~= a.skip(1) + b);
        assert((a + b)[0] == a[0]);
        assert(ids_list(a + b) =~= ids_list(a) + ids_list(b));
    }
}

pub proof fn lemma_leaves_concat(a: Seq<Tree>, b: Seq<Tree>)
    ensures
        leaves_list(a + b) == leaves_list(a) + leaves_list(b),
    decreases a.len(),
{
    if a.len() == 0 {
        assert(a + b =~= b);
        assert(leaves_list(a) + leaves_list(b) =~= leaves_list(b));
    } else {
        lemma_leaves_concat(a.skip(1), b);
        assert((a + b).skip(1) =~= a.skip(1) + b);
        assert((a + b)[0] == a[0]);
        assert(leaves_list(a + b) =~= leaves_list(a) + leaves_list(b));
    }
}

pub proof fn lemma_single_list(t: Tree)
    ensures
        contents_list(seq![t]) == contents(t),
        ids_list(seq![t]) == ids(t),
        leaves_list(seq![t]) == leaves(t),
{
    let one = seq![t];
    let none = one.skip(1);
    assert(none.len() == 0);
    assert(contents_list(none) == Seq::<Entry>::empty());
    assert(ids_list(none) == Seq::<PageId>::empty());
    assert(leaves_list(none) == Seq::<Tree>::empty());
    assert(one[0] == t);
    assert(contents_list(one) =~= contents(t));
    assert(ids_list(one) =~= ids(t));
    assert(leaves_list(one) =~= leaves(t));
}

/// A list around one of its kids.
pub proof fn lemma_list_around(kids: Seq<Tree>, i: int)
    requires
        0 <= i < kids.len(),
    ensures
        contents_list(kids) == contents_list(kids.take(i)) + contents(kids[i]) + contents_list(
            kids.skip(i + 1),
        ),
        ids_list(kids) == ids_list(kids.take(i)) + ids(kids[i]) + ids_list(kids.skip(i + 1)),
        leaves_list(kids) == leaves_list(kids.take(i)) + leaves(kids[i]) + leaves_list(
            kids.skip(i + 1),
        ),
{
    let a = kids.take(i);
    let b = seq![kids[i]];
    let c = kids.skip(i + 1);
    assert(kids =~= a + b + c);
    lemma_contents_concat(a + b, c);
    lemma_contents_concat(a, b);
    lemma_ids_concat(a + b, c);
    lemma_ids_concat(a, b);
    lemma_leaves_concat(a + b, c);
    lemma_leaves_concat(a, b);
    lemma_single_list(kids[i]);
}

/// A kid's pages are its parent's.
pub proof fn lemma_kid_ids(kids: Seq<Tree>, i: int, p: PageId)
    requires
        0 <= i < kids.len(),
        ids(kids[i]).contains(p),
    ensures
        ids_list(kids).contains(p),
{
    lemma_list_around(kids, i);
    let a = ids_list(kids.take(i));
    let b = ids(kids[i]);
    let c = ids_list(kids.skip(i + 1));
    let k = choose|k: int| 0 <= k < b.len() && b[k] == p;
    assert((a + b + c)[a.len() + k] == p);
}

/// A page of a list is one of a kid's.
pub proof fn lemma_ids_list_kid(kids: Seq<Tree>, p: PageId) -> (i: int)
    requires
        ids_list(kids).contains(p),
    ensures
        0 <= i < kids.len(),
        ids(kids[i]).contains(p),
    decreases kids.len(),
{
    let all = ids_list(kids);
    let k = choose|k: int| 0 <= k < all.len() && all[k] == p;
    let first = ids(kids[0]);
    if k < first.len() {
        assert(first[k] == p);
        0
    } else {
        let rest = ids_list(kids.skip(1));
        assert(rest[k - first.len()] == p);
        let j = lemma_ids_list_kid(kids.skip(1), p);
        j + 1
    }
}

pub proof fn lemma_root_in_ids(t: Tree)
    ensures
        ids(t).contains(t.id()),
        ids(t).len() >= 1,
        ids(t)[0] == t.id(),
{
    assert(ids(t)[0] == t.id());
}

/// Duplicates nowhere in a whole means none in its parts, and none shared
/// between them.
pub proof fn lemma_no_duplicates_parts(a: Seq<PageId>, b: Seq<PageId>)
    requires
        (a + b).no_duplicates(),
    ensures
        a.no_duplicates(),
        b.no_duplicates(),
        forall|p: PageId| !(#[trigger] a.contains(p) && b.contains(p)),
{
    let all = a + b;
    assert forall|i: int, j: int| 0 <= i < a.len() && 0 <= j < a.len() && i != j implies a[i]
        != a[j] by {
        assert(all[i] != all[j]);
    }
    assert forall|i: int, j: int| 0 <= i < b.len() && 0 <= j < b.len() && i != j implies b[i]
        != b[j] by {
        assert(all[a.len() + i] != all[a.len() + j]);
    }
    assert forall|p: PageId| !(#[trigger] a.contains(p) && b.contains(p)) by {
        if a.contains(p) && b.contains(p) {
            let i = choose|i: int| 0 <= i < a.len() && a[i] == p;
            let j = choose|j: int| 0 <= j < b.len() && b[j] == p;
            assert(all[i] != all[a.len() + j]);
        }
    }
}

/// Parts without duplicates that share nothing make a whole without.
pub proof fn lemma_no_duplicates_whole(a: Seq<PageId>, b: Seq<PageId>)
    requires
        a.no_duplicates(),
        b.no_duplicates(),
        forall|p: PageId| !(#[trigger] a.contains(p) && b.contains(p)),
    ensures
        (a + b).no_duplicates(),
{
    let all = a + b;
    assert forall|i: int, j: int| 0 <= i < all.len() && 0 <= j < all.len() && i != j implies all[i]
        != all[j] by {
        if i < a.len() && j < a.len() {
            assert(a[i] != a[j]);
        } else if i >= a.len() && j >= a.len() {
            assert(b[i - a.len()] != b[j - a.len()]);
        } else {
            let (x, y) = if i < a.len() {
                (i, j)
            } else {
                (j, i)
            };
            assert(a.contains(all[x]));
            assert(b[y - a.len()] == all[y]);
            assert(b.contains(all[y]));
        }
    }
}

pub proof fn lemma_contains_concat(a: Seq<PageId>, b: Seq<PageId>, p: PageId)
    ensures
        (a + b).contains(p) <==> a.contains(p) || b.contains(p),
{
    let all = a + b;
    if all.contains(p) {
        let i = choose|i: int| 0 <= i < all.len() && all[i] == p;
        if i < a.len() {
            assert(a[i] == p);
        } else {
            assert(b[i - a.len()] == p);
        }
    }
    if a.contains(p) {
        let i = choose|i: int| 0 <= i < a.len() && a[i] == p;
        assert(all[i] == p);
    }
    if b.contains(p) {
        let i = choose|i: int| 0 <= i < b.len() && b[i] == p;
        assert(all[a.len() + i] == p);
    }
}

/// Kids of a tree without duplicates have none, and share none.
pub proof fn lemma_kids_apart(kids: Seq<Tree>, i: int, j: int)
    requires
        ids_list(kids).no_duplicates(),
        0 <= i < kids.len(),
        0 <= j < kids.len(),
    ensures
        ids(kids[i]).no_duplicates(),
        i != j ==> forall|p: PageId| !(#[trigger] ids(kids[i]).contains(p) && ids(kids[j]).contains(p)),
{
    lemma_list_around(kids, i);
    let a = ids_list(kids.take(i));
    let b = ids(kids[i]);
    let c = ids_list(kids.skip(i + 1));
    lemma_no_duplicates_parts(a + b, c);
    lemma_no_duplicates_parts(a, b);
    if i != j {
        assert forall|p: PageId| !(#[trigger] b.contains(p) && ids(kids[j]).contains(p)) by {
            if b.contains(p) && ids(kids[j]).contains(p) {
                if j < i {
                    assert(kids.take(i)[j] == kids[j]);
                    lemma_kid_ids(kids.take(i), j, p);
                } else {
                    assert(kids.skip(i + 1)[j - i - 1] == kids[j]);
                    lemma_kid_ids(kids.skip(i + 1), j - i - 1, p);
                    lemma_contains_concat(a, b, p);
                }
            }
        }
    }
}

/// Pages that agree where a tree is stored store the same tree.
pub proof fn lemma_stored_frame(
    before: Map<PageId, Seq<u8>>,
    after: Map<PageId, Seq<u8>>,
    t: Tree,
)
    requires
        stored(before, t),
        forall|p: PageId| #[trigger]
            ids(t).contains(p) ==> after.dom().contains(p) && after[p] == before[p],
    ensures
        stored(after, t),
    decreases t,
{
    lemma_root_in_ids(t);
    match t {
        Tree::Leaf { .. } => {},
        Tree::Branch { id, keys, kids } => {
            assert forall|i: int| 0 <= i < kids.len() implies stored(after, #[trigger] kids[i]) by {
                assert forall|p: PageId| #[trigger]
                    ids(kids[i]).contains(p) implies after.dom().contains(p) && after[p]
                    == before[p] by {
                    lemma_kid_ids(kids, i, p);
                    lemma_contains_concat(seq![id], ids_list(kids), p);
                }
                lemma_stored_frame(before, after, kids[i]);
            }
        },
    }
}

/// A stored tree's pages are there.
pub proof fn lemma_stored_ids(pages: Map<PageId, Seq<u8>>, t: Tree, p: PageId)
    requires
        stored(pages, t),
        ids(t).contains(p),
    ensures
        pages.dom().contains(p),
    decreases t,
{
    match t {
        Tree::Leaf { id, .. } => {},
        Tree::Branch { id, kids, .. } => {
            lemma_contains_concat(seq![id], ids_list(kids), p);
            if p != id {
                let i = lemma_ids_list_kid(kids, p);
                lemma_stored_ids(pages, kids[i], p);
            }
        },
    }
}

// ---------------------------------------------------------------------
// Order.

/// The first kids of a branch are in order below the separator after them.
pub proof fn lemma_kids_take(
    keys: Seq<Seq<u8>>,
    kids: Seq<Tree>,
    low: Seq<u8>,
    high: Option<Seq<u8>>,
    m: int,
)
    requires
        kids_in_order(keys, kids, low, high),
        0 <= m < keys.len(),
    ensures
        kids_in_order(keys.take(m), kids.take(m + 1), low, Some(keys[m])),
{
    let k = keys.take(m);
    let t = kids.take(m + 1);
    assert forall|i: int| 0 <= i < k.len() implies (#[trigger] k[i]).len() <= MAX_KEY_LEN
        && bytes_lt(low, k[i]) && bytes_lt(k[i], keys[m]) by {
        assert(bytes_lt(keys[i], keys[m]));
    }
    assert forall|i: int| 0 <= i < t.len() implies in_order(
        #[trigger] t[i],
        low_bound(k, low, i),
        high_bound(k, Some(keys[m]), i),
    ) by {
        assert(in_order(kids[i], low_bound(keys, low, i), high_bound(keys, high, i)));
    }
}

/// The kids past a separator are in order from it on.
pub proof fn lemma_kids_skip(
    keys: Seq<Seq<u8>>,
    kids: Seq<Tree>,
    low: Seq<u8>,
    high: Option<Seq<u8>>,
    m: int,
)
    requires
        kids_in_order(keys, kids, low, high),
        0 <= m < keys.len(),
    ensures
        kids_in_order(keys.skip(m + 1), kids.skip(m + 1), keys[m], high),
{
    let k = keys.skip(m + 1);
    let t = kids.skip(m + 1);
    assert forall|i: int, j: int| 0 <= i < j < k.len() implies bytes_lt(
        #[trigger] k[i],
        #[trigger] k[j],
    ) by {
        assert(bytes_lt(keys[i + m + 1], keys[j + m + 1]));
    }
    assert forall|i: int| 0 <= i < k.len() implies (#[trigger] k[i]).len() <= MAX_KEY_LEN
        && bytes_lt(keys[m], k[i]) && (high matches Some(h) ==> bytes_lt(k[i], h)) by {
        assert(bytes_lt(keys[m], keys[i + m + 1]));
    }
    assert forall|i: int| 0 <= i < t.len() implies in_order(
        #[trigger] t[i],
        low_bound(k, keys[m], i),
        high_bound(k, high, i),
    ) by {
        assert(in_order(
            kids[i + m + 1],
            low_bound(keys, low, i + m + 1),
            high_bound(keys, high, i + m + 1),
        ));
    }
}

/// A tree in order holds sorted entries within its bounds.
pub proof fn lemma_contents_in_order(t: Tree, low: Seq<u8>, high: Option<Seq<u8>>)
    requires
        in_order(t, low, high),
    ensures
        sorted(contents(t)),
        bounded(contents(t), low, high),
    decreases t, 0nat,
{
    match t {
        Tree::Leaf { .. } => {},
        Tree::Branch { keys, kids, .. } => {
            lemma_list_in_order(keys, kids, low, high);
        },
    }
}

pub proof fn lemma_list_in_order(
    keys: Seq<Seq<u8>>,
    kids: Seq<Tree>,
    low: Seq<u8>,
    high: Option<Seq<u8>>,
)
    requires
        kids_in_order(keys, kids, low, high),
    ensures
        sorted(contents_list(kids)),
        bounded(contents_list(kids), low, high),
    decreases kids, 1nat,
{
    assert(in_order(kids[0], low_bound(keys, low, 0), high_bound(keys, high, 0)));
    lemma_contents_in_order(kids[0], low, high_bound(keys, high, 0));
    let first = contents(kids[0]);
    let rest = contents_list(kids.skip(1));
    let all = contents_list(kids);
    if keys.len() == 0 {
        assert(kids.skip(1).len() == 0);
        assert(all =~= first);
    } else {
        lemma_kids_skip(keys, kids, low, high, 0);
        lemma_list_in_order(keys.skip(1), kids.skip(1), keys[0], high);
        assert forall|i: int, j: int| 0 <= i < j < all.len() implies bytes_lt(
            (#[trigger] all[i]).0,
            (#[trigger] all[j]).0,
        ) by {
            if j < first.len() {
                assert(all[i] == first[i] && all[j] == first[j]);
            } else if i >= first.len() {
                assert(all[i] == rest[i - first.len()] && all[j] == rest[j - first.len()]);
            } else {
                assert(all[i] == first[i] && all[j] == rest[j - first.len()]);
                lemma_le_is_not_gt(keys[0], all[j].0);
                lemma_lt_le_transitive(all[i].0, keys[0], all[j].0);
            }
        }
        assert forall|i: int| 0 <= i < all.len() implies !bytes_lt((#[trigger] all[i]).0, low) && (
        high matches Some(h) ==> bytes_lt(all[i].0, h)) by {
            if i < first.len() {
                assert(all[i] == first[i]);
                if high is Some {
                    lemma_lt_transitive(all[i].0, keys[0], high->Some_0);
                }
            } else {
                let e = rest[i - first.len()];
                assert(all[i] == e);
                if bytes_lt(e.0, low) {
                    lemma_lt_transitive(e.0, low, keys[0]);
                }
            }
        }
    }
}

// ---------------------------------------------------------------------
// Routing.

/// Which kid holds `target`: the number of separators not above it.
pub open spec fn child_index(keys: Seq<Seq<u8>>, target: Seq<u8>) -> int
    decreases keys.len(),
{
    if keys.len() == 0 || bytes_lt(target, keys[0]) {
        0
    } else {
        1 + child_index(keys.skip(1), target)
    }
}

pub proof fn lemma_child_index(keys: Seq<Seq<u8>>, target: Seq<u8>)
    ensures
        0 <= child_index(keys, target) <= keys.len(),
        forall|i: int|
            0 <= i < child_index(keys, target) ==> !bytes_lt(target, #[trigger] keys[i]),
        child_index(keys, target) < keys.len() ==> bytes_lt(
            target,
            keys[child_index(keys, target)],
        ),
    decreases keys.len(),
{
    if keys.len() > 0 && !bytes_lt(target, keys[0]) {
        let rest = keys.skip(1);
        lemma_child_index(rest, target);
        assert forall|i: int| 0 <= i < child_index(keys, target) implies !bytes_lt(
            target,
            #[trigger] keys[i],
        ) by {
            if i > 0 {
                assert(rest[i - 1] == keys[i]);
            }
        }
    }
}

pub proof fn lemma_child_index_is(keys: Seq<Seq<u8>>, target: Seq<u8>, at: int)
    requires
        0 <= at <= keys.len(),
        forall|i: int| 0 <= i < at ==> !bytes_lt(target, #[trigger] keys[i]),
        at < keys.len() ==> bytes_lt(target, keys[at]),
    ensures
        child_index(keys, target) == at,
{
    lemma_child_index(keys, target);
    let found = child_index(keys, target);
    if found < at {
        assert(!bytes_lt(target, keys[found]));
    }
    if at < found {
        assert(!bytes_lt(target, keys[at]));
    }
}

/// A key is within the bounds of the kid it is routed to, above what the
/// kids before hold and below what the kids after hold.
pub proof fn lemma_routed(
    keys: Seq<Seq<u8>>,
    kids: Seq<Tree>,
    low: Seq<u8>,
    high: Option<Seq<u8>>,
    key: Seq<u8>,
)
    requires
        kids_in_order(keys, kids, low, high),
        !bytes_lt(key, low),
        high matches Some(h) ==> bytes_lt(key, h),
    ensures
        ({
            let at = child_index(keys, key);
            let a = contents_list(kids.take(at));
            let c = contents_list(kids.skip(at + 1));
            &&& 0 <= at < kids.len()
            &&& !bytes_lt(key, low_bound(keys, low, at))
            &&& (high_bound(keys, high, at) matches Some(h) ==> bytes_lt(key, h))
            &&& contents_list(kids) == a + contents(kids[at]) + c
            &&& forall|i: int| 0 <= i < a.len() ==> bytes_lt((#[trigger] a[i]).0, key)
            &&& forall|i: int| 0 <= i < c.len() ==> bytes_lt(key, (#[trigger] c[i]).0)
        }),
{
    lemma_child_index(keys, key);
    let at = child_index(keys, key);
    lemma_list_around(kids, at);
    let a = contents_list(kids.take(at));
    let c = contents_list(kids.skip(at + 1));
    if at > 0 {
        assert(!bytes_lt(key, keys[at - 1]));
        lemma_kids_take(keys, kids, low, high, at - 1);
        assert(kids.take(at - 1 + 1) =~= kids.take(at));
        lemma_list_in_order(keys.take(at - 1), kids.take(at), low, Some(keys[at - 1]));
        lemma_le_is_not_gt(keys[at - 1], key);
        assert forall|i: int| 0 <= i < a.len() implies bytes_lt((#[trigger] a[i]).0, key) by {
            lemma_lt_le_transitive(a[i].0, keys[at - 1], key);
        }
    }
    if at < keys.len() {
        lemma_kids_skip(keys, kids, low, high, at);
        lemma_list_in_order(keys.skip(at + 1), kids.skip(at + 1), keys[at], high);
        assert forall|i: int| 0 <= i < c.len() implies bytes_lt(key, (#[trigger] c[i]).0) by {
            lemma_le_is_not_gt(keys[at], c[i].0);
            lemma_lt_le_transitive(key, keys[at], c[i].0);
        }
    } else {
        assert(kids.skip(at + 1).len() == 0);
    }
}

} // verus!

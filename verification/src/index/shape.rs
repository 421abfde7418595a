//! Facts about B-trees as a whole: they are flat, the pages determine
//! them, and their leaves form a chain.

use super::branch::branch_cells_are_distinct;
use super::leaf::leaf_cells_are_distinct;
use super::tree::{
    after_kid, balanced, branch_cells, contents, contents_list, first_leaf, ids, ids_list, is_tree,
    leaf_cells, leaves, leaves_list, lemma_contains_concat, lemma_contents_concat, lemma_kids_apart,
    lemma_list_around, lemma_no_duplicates_parts, lemma_root_in_ids, lemma_routed,
    lemma_single_list, level, linked, roots, sound, stored, Entry, Tree,
};
use crate::order::bytes_lt;
use crate::storage::PageId;
use vstd::arithmetic::power2::{lemma2_to64, lemma2_to64_rest, lemma_pow2_adds, lemma_pow2_pos, pow2};
use vstd::prelude::*;
use vstd::set_lib::{lemma_int_range, lemma_len_subset, set_int_range};

verus! {

/// More levels than a tree of distinct pages can have.
pub const MAX_LEVELS: usize = 65;

/// There are no more distinct pages than page numbers.
pub proof fn lemma_page_numbers(pages: Seq<PageId>)
    requires
        pages.no_duplicates(),
    ensures
        pages.len() <= 0x1_0000_0000_0000_0000,
{
    let numbers = Seq::new(pages.len(), |i: int| pages[i] as int);
    assert forall|i: int, j: int|
        0 <= i < numbers.len() && 0 <= j < numbers.len() && i != j implies numbers[i]
        != numbers[j] by {
        assert(pages[i] != pages[j]);
    }
    numbers.unique_seq_to_set();
    let all = set_int_range(0, 0x1_0000_0000_0000_0000);
    lemma_int_range(0, 0x1_0000_0000_0000_0000);
    assert(numbers.to_set().subset_of(all)) by {
        assert forall|n: int| numbers.to_set().contains(n) implies all.contains(n) by {
            let i = choose|i: int| 0 <= i < numbers.len() && numbers[i] == n;
            assert(numbers[i] == pages[i] as int);
        }
    }
    lemma_len_subset(numbers.to_set(), all);
}

/// A balanced tree has at least twice the pages per level.
proof fn lemma_page_growth(t: Tree)
    requires
        balanced(t),
    ensures
        ids(t).len() >= pow2(level(t)),
    decreases t,
{
    lemma2_to64();
    match t {
        Tree::Leaf { .. } => {},
        Tree::Branch { id, kids, .. } => {
            let a = kids[0];
            let b = kids[1];
            lemma_page_growth(a);
            assert(balanced(b) && level(b) == level(a));
            lemma_page_growth(b);
            lemma_pow2_adds(1, level(a));
            let rest = kids.skip(1);
            assert(rest[0] == b);
            assert(ids_list(kids).len() == ids(a).len() + ids_list(rest).len());
            assert(ids_list(rest).len() >= ids(b).len());
        },
    }
}

/// A tree of distinct pages has at most `MAX_LEVELS` levels.
pub proof fn trees_are_flat(t: Tree)
    requires
        balanced(t),
        ids(t).no_duplicates(),
    ensures
        level(t) < MAX_LEVELS,
{
    lemma_page_growth(t);
    lemma_page_numbers(ids(t));
    lemma2_to64();
    lemma2_to64_rest();
    if level(t) >= 65 {
        lemma_pow2_adds(65, (level(t) - 65) as nat);
        lemma_pow2_pos((level(t) - 65) as nat);
        lemma_pow2_adds(64, 1);
        assert(pow2(65) == 2 * 0x1_0000_0000_0000_0000);
        assert(pow2(level(t)) >= pow2(65)) by (nonlinear_arith)
            requires
                pow2(level(t)) == pow2(65) * pow2((level(t) - 65) as nat),
                pow2((level(t) - 65) as nat) >= 1,
                pow2(65) >= 0,
        ;
    }
}

/// The pages determine the tree.
pub proof fn lemma_stored_unique(pages: Map<PageId, Seq<u8>>, a: Tree, b: Tree)
    requires
        stored(pages, a),
        stored(pages, b),
        a.id() == b.id(),
    ensures
        a == b,
    decreases a,
{
    match (a, b) {
        (Tree::Leaf { entries: x, .. }, Tree::Leaf { entries: y, .. }) => {
            assert(leaf_cells(x) == leaf_cells(y));
            assert(x.len() == leaf_cells(x).len() && y.len() == leaf_cells(y).len());
            assert forall|i: int| 0 <= i < x.len() implies x[i] == y[i] by {
                assert(leaf_cells(x)[i] == leaf_cells(y)[i]);
                leaf_cells_are_distinct(x[i].0, x[i].1, y[i].0, y[i].1);
            }
            assert(x =~= y);
        },
        (Tree::Branch { keys: j, kids: x, .. }, Tree::Branch { keys: k, kids: y, .. }) => {
            let r = roots(x);
            let s = roots(y);
            assert(branch_cells(j, r) == branch_cells(k, s));
            assert(j.len() == branch_cells(j, r).len() && k.len() == branch_cells(k, s).len());
            assert forall|i: int| 0 <= i < j.len() implies j[i] == k[i] && r[i] == s[i] by {
                assert(branch_cells(j, r)[i] == branch_cells(k, s)[i]);
                branch_cells_are_distinct(j[i], r[i], k[i], s[i]);
            }
            assert(j =~= k);
            assert forall|i: int| 0 <= i < x.len() implies x[i] == y[i] by {
                assert(r[i] == s[i]);
                assert(stored(pages, x[i]) && stored(pages, y[i]));
                lemma_stored_unique(pages, x[i], y[i]);
            }
            assert(x =~= y);
        },
        _ => {},
    }
}

pub proof fn lemma_tree_unique(pages: Map<PageId, Seq<u8>>, root: PageId, a: Tree, b: Tree)
    requires
        is_tree(pages, root, a),
        is_tree(pages, root, b),
    ensures
        a == b,
{
    lemma_stored_unique(pages, a, b);
}

// ---------------------------------------------------------------------
// The chain of leaves.

/// Whether every one of `row` is a leaf that `pages` hold, each linked to
/// the next and the last to `after`.
pub open spec fn chained(pages: Map<PageId, Seq<u8>>, row: Seq<Tree>, after: PageId) -> bool {
    &&& forall|i: int|
        0 <= i < row.len() ==> (#[trigger] row[i]) is Leaf && stored(pages, row[i])
    &&& forall|i: int|
        0 <= i < row.len() ==> row[i]->next == #[trigger] after_kid(row, i, after)
}

proof fn lemma_chained_concat(
    pages: Map<PageId, Seq<u8>>,
    a: Seq<Tree>,
    b: Seq<Tree>,
    middle: PageId,
    after: PageId,
)
    requires
        chained(pages, a, middle),
        chained(pages, b, after),
        middle == (if b.len() > 0 {
            b[0].id()
        } else {
            after
        }),
    ensures
        chained(pages, a + b, after),
{
    let all = a + b;
    assert forall|i: int| 0 <= i < all.len() implies (#[trigger] all[i]) is Leaf && stored(
        pages,
        all[i],
    ) by {
        if i < a.len() {
            assert(all[i] == a[i]);
        } else {
            assert(all[i] == b[i - a.len()]);
        }
    }
    assert forall|i: int| 0 <= i < all.len() implies all[i]->next == #[trigger] after_kid(
        all,
        i,
        after,
    ) by {
        if i < a.len() {
            assert(all[i] == a[i]);
            assert(a[i]->next == after_kid(a, i, middle));
            if i + 1 < a.len() {
                assert(all[i + 1] == a[i + 1]);
            } else if b.len() > 0 {
                assert(all[i + 1] == b[0]);
                assert(b[0] is Leaf);
            }
        } else {
            assert(all[i] == b[i - a.len()]);
            assert(b[i - a.len()]->next == after_kid(b, i - a.len(), after));
            if i + 1 < all.len() {
                assert(all[i + 1] == b[i + 1 - a.len()]);
            }
        }
    }
}

/// A tree's leaves form a chain that holds the tree's contents.
pub proof fn lemma_leaves(pages: Map<PageId, Seq<u8>>, t: Tree, after: PageId)
    requires
        stored(pages, t),
        balanced(t),
        linked(t, after),
    ensures
        leaves(t).len() >= 1,
        leaves(t)[0].id() == first_leaf(t),
        chained(pages, leaves(t), after),
        contents_list(leaves(t)) == contents(t),
        leaves(t).len() <= ids(t).len(),
    decreases t,
{
    match t {
        Tree::Leaf { .. } => {
            lemma_single_list(t);
        },
        Tree::Branch { id, kids, .. } => {
            lemma_leaves_list(pages, kids, after);
        },
    }
}

proof fn lemma_leaves_list(pages: Map<PageId, Seq<u8>>, kids: Seq<Tree>, after: PageId)
    requires
        kids.len() >= 1,
        forall|i: int| 0 <= i < kids.len() ==> stored(pages, #[trigger] kids[i]),
        forall|i: int| 0 <= i < kids.len() ==> balanced(#[trigger] kids[i]),
        forall|i: int|
            0 <= i < kids.len() ==> linked(kids[i], #[trigger] after_kid(kids, i, after)),
    ensures
        leaves_list(kids).len() >= 1,
        leaves_list(kids)[0].id() == first_leaf(kids[0]),
        chained(pages, leaves_list(kids), after),
        contents_list(leaves_list(kids)) == contents_list(kids),
        leaves_list(kids).len() <= ids_list(kids).len(),
    decreases kids,
{
    let rest = kids.skip(1);
    let middle = after_kid(kids, 0, after);
    assert(linked(kids[0], middle));
    lemma_leaves(pages, kids[0], middle);
    let a = leaves(kids[0]);
    let b = leaves_list(rest);
    lemma_contents_concat(a, b);
    if rest.len() == 0 {
        assert(b.len() == 0);
        assert(a + b =~= a);
        assert(leaves_list(kids) =~= a);
        assert(contents_list(rest) =~= Seq::<Entry>::empty());
        assert(contents_list(kids) =~= contents(kids[0]));
    } else {
        assert forall|i: int| 0 <= i < rest.len() implies stored(pages, #[trigger] rest[i])
            && balanced(rest[i]) by {
            assert(kids[i + 1] == rest[i]);
        }
        assert forall|i: int| 0 <= i < rest.len() implies linked(
            rest[i],
            #[trigger] after_kid(rest, i, after),
        ) by {
            assert(linked(kids[i + 1], after_kid(kids, i + 1, after)));
        }
        lemma_leaves_list(pages, rest, after);
        lemma_chained_concat(pages, a, b, middle, after);
        assert(leaves_list(kids)[0] == a[0]);
    }
}

/// A leaf's page is one of the tree's.
pub proof fn lemma_leaf_ids(t: Tree, i: int)
    requires
        0 <= i < leaves(t).len(),
    ensures
        ids(t).contains(leaves(t)[i].id()),
    decreases t,
{
    match t {
        Tree::Leaf { .. } => {
            lemma_root_in_ids(t);
        },
        Tree::Branch { id, kids, .. } => {
            lemma_leaf_list_ids(kids, i);
            lemma_contains_concat(seq![id], ids_list(kids), leaves(t)[i].id());
        },
    }
}

proof fn lemma_leaf_list_ids(kids: Seq<Tree>, i: int)
    requires
        0 <= i < leaves_list(kids).len(),
    ensures
        ids_list(kids).contains(leaves_list(kids)[i].id()),
    decreases kids,
{
    let a = leaves(kids[0]);
    let p = leaves_list(kids)[i].id();
    lemma_contains_concat(ids(kids[0]), ids_list(kids.skip(1)), p);
    if i < a.len() {
        lemma_leaf_ids(kids[0], i);
        assert(a[i] == leaves_list(kids)[i]);
    } else {
        lemma_leaf_list_ids(kids.skip(1), i - a.len());
        assert(leaves_list(kids)[i] == leaves_list(kids.skip(1))[i - a.len()]);
    }
}

/// The chain is shorter than there are page numbers.
pub proof fn lemma_chain_length(t: Tree)
    requires
        ids(t).no_duplicates(),
        leaves(t).len() <= ids(t).len(),
    ensures
        leaves(t).len() <= 0x1_0000_0000_0000_0000,
{
    lemma_page_numbers(ids(t));
}

// ---------------------------------------------------------------------
// The way down.

/// Whether, in a tree with the leaves `row`, everything left of `t` is
/// below `key` and everything right of it above.
pub open spec fn on_the_way(
    row: Seq<Tree>,
    left: Seq<Tree>,
    t: Tree,
    right: Seq<Tree>,
    key: Seq<u8>,
) -> bool {
    &&& row == left + leaves(t) + right
    &&& forall|i: int|
        0 <= i < contents_list(left).len() ==> bytes_lt((#[trigger] contents_list(left)[i]).0, key)
    &&& forall|i: int|
        0 <= i < contents_list(right).len() ==> bytes_lt(
            key,
            (#[trigger] contents_list(right)[i]).0,
        )
}

/// One step down the tree.
pub proof fn lemma_step_down(
    pages: Map<PageId, Seq<u8>>,
    row: Seq<Tree>,
    left: Seq<Tree>,
    t: Tree,
    right: Seq<Tree>,
    key: Seq<u8>,
    low: Seq<u8>,
    high: Option<Seq<u8>>,
    after: PageId,
    at: int,
) -> (sides: (Seq<Tree>, Seq<Tree>))
    requires
        sound(pages, t, low, high, after),
        t is Branch,
        on_the_way(row, left, t, right, key),
        !bytes_lt(key, low),
        high matches Some(h) ==> bytes_lt(key, h),
        at == super::tree::child_index(t->keys, key),
    ensures
        0 <= at < t->kids.len(),
        on_the_way(row, sides.0, t->kids[at], sides.1, key),
        sound(
            pages,
            t->kids[at],
            super::tree::low_bound(t->keys, low, at),
            super::tree::high_bound(t->keys, high, at),
            after_kid(t->kids, at, after),
        ),
        !bytes_lt(key, super::tree::low_bound(t->keys, low, at)),
        super::tree::high_bound(t->keys, high, at) matches Some(h) ==> bytes_lt(key, h),
        level(t->kids[at]) + 1 == level(t),
{
    let kids = t->kids;
    let keys = t->keys;
    lemma_routed(keys, kids, low, high, key);
    lemma_list_around(kids, at);
    let a = leaves_list(kids.take(at));
    let c = leaves_list(kids.skip(at + 1));
    let l = left + a;
    let r = c + right;
    lemma_contents_concat(left, a);
    lemma_contents_concat(c, right);
    // What the side kids hold is what their leaves hold.
    lemma_side_contents(pages, kids, after, at);
    let ca = contents_list(kids.take(at));
    let cc = contents_list(kids.skip(at + 1));
    assert forall|i: int| 0 <= i < contents_list(l).len() implies bytes_lt(
        (#[trigger] contents_list(l)[i]).0,
        key,
    ) by {
        let n = contents_list(left).len();
        if i < n {
            assert(contents_list(l)[i] == contents_list(left)[i]);
        } else {
            assert(contents_list(l)[i] == ca[i - n]);
        }
    }
    assert forall|i: int| 0 <= i < contents_list(r).len() implies bytes_lt(
        key,
        (#[trigger] contents_list(r)[i]).0,
    ) by {
        let n = cc.len();
        if i < n {
            assert(contents_list(r)[i] == cc[i]);
        } else {
            assert(contents_list(r)[i] == contents_list(right)[i - n]);
        }
    }
    assert(row =~= l + leaves(kids[at]) + r);
    lemma_no_duplicates_parts(seq![t.id()], ids_list(kids));
    lemma_kids_apart(kids, at, at);
    assert(linked(kids[at], after_kid(kids, at, after)));
    assert(balanced(kids[at]) && level(kids[at]) == level(kids[0]));
    assert(stored(pages, kids[at]));
    (l, r)
}

/// The kids beside one hold what their leaves hold.
proof fn lemma_side_contents(
    pages: Map<PageId, Seq<u8>>,
    kids: Seq<Tree>,
    after: PageId,
    at: int,
)
    requires
        0 <= at < kids.len(),
        forall|i: int| 0 <= i < kids.len() ==> stored(pages, #[trigger] kids[i]),
        forall|i: int| 0 <= i < kids.len() ==> balanced(#[trigger] kids[i]),
        forall|i: int|
            0 <= i < kids.len() ==> linked(kids[i], #[trigger] after_kid(kids, i, after)),
    ensures
        contents_list(leaves_list(kids.take(at))) == contents_list(kids.take(at)),
        contents_list(leaves_list(kids.skip(at + 1))) == contents_list(kids.skip(at + 1)),
{
    let a = kids.take(at);
    let c = kids.skip(at + 1);
    if a.len() > 0 {
        let middle = first_leaf(kids[at]);
        assert forall|i: int| 0 <= i < a.len() implies linked(
            a[i],
            #[trigger] after_kid(a, i, middle),
        ) by {
            assert(linked(kids[i], after_kid(kids, i, after)));
        }
        lemma_leaves_list(pages, a, middle);
    } else {
        assert(leaves_list(a) =~= Seq::<Tree>::empty());
    }
    if c.len() > 0 {
        assert forall|i: int| 0 <= i < c.len() implies stored(pages, #[trigger] c[i]) && balanced(
            c[i],
        ) by {
            assert(c[i] == kids[i + at + 1]);
        }
        assert forall|i: int| 0 <= i < c.len() implies linked(
            c[i],
            #[trigger] after_kid(c, i, after),
        ) by {
            assert(linked(kids[i + at + 1], after_kid(kids, i + at + 1, after)));
        }
        lemma_leaves_list(pages, c, after);
    } else {
        assert(leaves_list(c) =~= Seq::<Tree>::empty());
    }
}

} // verus!

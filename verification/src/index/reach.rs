//! What can be reached from an index's root, also where the index is damaged.

use super::btree::{lemma_branch_cells_injective, lemma_leaf_cells_injective};
use super::shape::lemma_page_numbers;
use super::tree::{
    branch_cells, child_index, has_tree, ids, ids_list, leaf_cells, lemma_no_duplicates_parts,
    lemma_root_in_ids, roots, stored, tree_at, Entry, Tree,
};
use crate::storage::page::{live, parse_page, PageModel};
use crate::storage::{PageId, PageType};
use vstd::prelude::*;

verus! {

/// Whether a page is a branch with these separators and kids.
pub open spec fn is_branch(m: PageModel, keys: Seq<Seq<u8>>, kids: Seq<PageId>) -> bool {
    m.kind == PageType::IndexBranch && kids.len() == keys.len() + 1 && kids.last() == m.next
        && live(m.slots) == branch_cells(keys, kids)
}

/// A branch's separators and kids.
pub open spec fn branch_of(m: PageModel) -> Option<(Seq<Seq<u8>>, Seq<PageId>)> {
    if exists|keys: Seq<Seq<u8>>, kids: Seq<PageId>| is_branch(m, keys, kids) {
        Some(choose|keys: Seq<Seq<u8>>, kids: Seq<PageId>| is_branch(m, keys, kids))
    } else {
        None
    }
}

/// Whether a page is a leaf with these entries.
pub open spec fn is_leaf(m: PageModel, entries: Seq<Entry>) -> bool {
    m.kind == PageType::IndexLeaf && live(m.slots) == leaf_cells(entries)
}

/// A leaf's entries.
pub open spec fn leaf_of(m: PageModel) -> Option<Seq<Entry>> {
    if exists|entries: Seq<Entry>| is_leaf(m, entries) {
        Some(choose|entries: Seq<Entry>| is_leaf(m, entries))
    } else {
        None
    }
}

/// What page `id` holds.
pub open spec fn page_at(pages: Map<PageId, Seq<u8>>, id: PageId) -> Option<PageModel> {
    if pages.dom().contains(id) {
        parse_page(pages[id])
    } else {
        None
    }
}

/// The kids of an index's page, none for a leaf; `None` if it is no page of an
/// index.
pub open spec fn kids_at(pages: Map<PageId, Seq<u8>>, id: PageId) -> Option<Seq<PageId>> {
    match page_at(pages, id) {
        Some(m) => if m.kind == PageType::IndexLeaf {
            Some(seq![])
        } else {
            match branch_of(m) {
                Some((_, kids)) => Some(kids),
                None => None,
            }
        },
        None => None,
    }
}

/// How many page numbers there are.
pub open spec fn page_numbers() -> nat {
    0x1_0000_0000_0000_0000
}

/// The pages `seen` and after them those that can be reached from the pages
/// `pending`, each before its kids: `None` if one is no page of an index, or is
/// reached twice. At most `steps` pages are read.
pub open spec fn reach(
    pages: Map<PageId, Seq<u8>>,
    pending: Seq<PageId>,
    seen: Seq<PageId>,
    steps: nat,
) -> Option<Seq<PageId>>
    decreases steps,
{
    if pending.len() == 0 {
        Some(seen)
    } else if steps == 0 || seen.contains(pending[0]) {
        None
    } else {
        match kids_at(pages, pending[0]) {
            Some(kids) => reach(
                pages,
                kids + pending.skip(1),
                seen.push(pending[0]),
                (steps - 1) as nat,
            ),
            None => None,
        }
    }
}

/// The pages of an index, its root first: `None` if one can't be read or is
/// reached twice.
pub open spec fn reached(pages: Map<PageId, Seq<u8>>, root: PageId) -> Option<Seq<PageId>> {
    reach(pages, seq![root], seq![], page_numbers())
}

/// The leaf that `key` leads to from page `id`, without coming to one of the
/// pages `seen` again. At most `steps` pages are read.
pub open spec fn leaf_towards(
    pages: Map<PageId, Seq<u8>>,
    id: PageId,
    key: Seq<u8>,
    seen: Seq<PageId>,
    steps: nat,
) -> Option<PageId>
    decreases steps,
{
    if steps == 0 || seen.contains(id) {
        None
    } else {
        match page_at(pages, id) {
            Some(m) => if m.kind == PageType::IndexLeaf {
                Some(id)
            } else {
                match branch_of(m) {
                    Some((keys, kids)) => leaf_towards(
                        pages,
                        kids[child_index(keys, key)],
                        key,
                        seen.push(id),
                        (steps - 1) as nat,
                    ),
                    None => None,
                }
            },
            None => None,
        }
    }
}

/// The leaf that `key` leads to: `None` if a page on the way can't be read or
/// comes twice.
pub open spec fn leaf_found(
    pages: Map<PageId, Seq<u8>>,
    root: PageId,
    key: Seq<u8>,
) -> Option<PageId> {
    leaf_towards(pages, root, key, seq![], page_numbers())
}

/// The entries of the leaves from page `id` on, each leaf leading to the next.
pub open spec fn along(pages: Map<PageId, Seq<u8>>, id: PageId, steps: nat) -> Option<Seq<Entry>>
    decreases steps,
{
    if steps == 0 {
        None
    } else {
        match page_at(pages, id) {
            Some(m) => match leaf_of(m) {
                Some(entries) => if m.next == 0 {
                    Some(entries)
                } else {
                    match along(pages, m.next, (steps - 1) as nat) {
                        Some(rest) => Some(entries + rest),
                        None => None,
                    }
                },
                None => None,
            },
            None => None,
        }
    }
}

/// What a scan of an index gives: the entries of its leaves, from the leftmost
/// on; `None` if a page on the way can't be read.
pub open spec fn scanned(pages: Map<PageId, Seq<u8>>, root: PageId) -> Option<Seq<Entry>> {
    match leaf_found(pages, root, seq![]) {
        Some(leaf) => along(pages, leaf, page_numbers()),
        None => None,
    }
}

/// A branch has one list of separators and kids.
pub proof fn lemma_branch_of(m: PageModel, keys: Seq<Seq<u8>>, kids: Seq<PageId>)
    requires
        is_branch(m, keys, kids),
    ensures
        branch_of(m) == Some((keys, kids)),
{
    let (j, r) = choose|j: Seq<Seq<u8>>, r: Seq<PageId>| is_branch(m, j, r);
    lemma_branch_cells_injective(j, r, keys, kids);
}

/// A leaf has one list of entries.
pub proof fn lemma_leaf_of(m: PageModel, entries: Seq<Entry>)
    requires
        is_leaf(m, entries),
    ensures
        leaf_of(m) == Some(entries),
{
    let other = choose|other: Seq<Entry>| is_leaf(m, other);
    lemma_leaf_cells_injective(other, entries);
}

/// The kids of a branch of a tree.
proof fn lemma_tree_kids(pages: Map<PageId, Seq<u8>>, t: Tree)
    requires
        stored(pages, t),
    ensures
        kids_at(pages, t.id()) == Some(
            match t {
                Tree::Leaf { .. } => seq![],
                Tree::Branch { kids, .. } => roots(kids),
            },
        ),
{
    match t {
        Tree::Leaf { .. } => {},
        Tree::Branch { id, keys, kids } => {
            let m = parse_page(pages[id])->Some_0;
            assert(roots(kids).last() == roots(kids)[keys.len() as int]);
            lemma_branch_of(m, keys, roots(kids));
        },
    }
}

/// From the root of a tree its pages are reached, and nothing else.
proof fn lemma_reach_tree(
    pages: Map<PageId, Seq<u8>>,
    t: Tree,
    rest: Seq<PageId>,
    seen: Seq<PageId>,
    steps: nat,
)
    requires
        stored(pages, t),
        (seen + ids(t)).no_duplicates(),
        ids(t).len() <= steps,
    ensures
        reach(pages, seq![t.id()] + rest, seen, steps) == reach(
            pages,
            rest,
            seen + ids(t),
            (steps - ids(t).len()) as nat,
        ),
    decreases t,
{
    let pending = seq![t.id()] + rest;
    lemma_tree_kids(pages, t);
    lemma_root_in_ids(t);
    lemma_no_duplicates_parts(seen, ids(t));
    assert(!seen.contains(t.id()));
    assert(pending.skip(1) =~= rest);
    let went = seen.push(t.id());
    match t {
        Tree::Leaf { .. } => {
            let none: Seq<PageId> = seq![];
            assert(none + rest =~= rest);
            assert(went =~= seen + ids(t));
        },
        Tree::Branch { id, keys, kids } => {
            assert(went + ids_list(kids) =~= seen + ids(t));
            lemma_reach_list(pages, kids, rest, went, (steps - 1) as nat);
        },
    }
}

proof fn lemma_reach_list(
    pages: Map<PageId, Seq<u8>>,
    kids: Seq<Tree>,
    rest: Seq<PageId>,
    seen: Seq<PageId>,
    steps: nat,
)
    requires
        forall|i: int| 0 <= i < kids.len() ==> stored(pages, #[trigger] kids[i]),
        (seen + ids_list(kids)).no_duplicates(),
        ids_list(kids).len() <= steps,
    ensures
        reach(pages, roots(kids) + rest, seen, steps) == reach(
            pages,
            rest,
            seen + ids_list(kids),
            (steps - ids_list(kids).len()) as nat,
        ),
    decreases kids,
{
    if kids.len() == 0 {
        assert(roots(kids) + rest =~= rest);
        assert(seen + ids_list(kids) =~= seen);
    } else {
        let more = kids.skip(1);
        let first = ids(kids[0]);
        assert(roots(kids) + rest =~= seq![kids[0].id()] + (roots(more) + rest)) by {
            assert(roots(kids)[0] == kids[0].id());
            assert forall|i: int| 0 <= i < more.len() implies roots(kids)[i + 1] == roots(
                more,
            )[i] by {
                assert(more[i] == kids[i + 1]);
            }
        }
        assert((seen + first) + ids_list(more) =~= seen + ids_list(kids));
        lemma_no_duplicates_parts(seen + first, ids_list(more));
        assert forall|i: int| 0 <= i < more.len() implies stored(pages, #[trigger] more[i]) by {
            assert(more[i] == kids[i + 1]);
        }
        assert(stored(pages, kids[0]));
        lemma_reach_tree(pages, kids[0], roots(more) + rest, seen, steps);
        lemma_reach_list(pages, more, rest, seen + first, (steps - first.len()) as nat);
    }
}

/// What is reached from the root of a sound tree are its pages.
pub proof fn lemma_reached_tree(pages: Map<PageId, Seq<u8>>, root: PageId)
    requires
        has_tree(pages, root),
    ensures
        reached(pages, root) == Some(ids(tree_at(pages, root))),
{
    let t = tree_at(pages, root);
    let none: Seq<PageId> = seq![];
    lemma_page_numbers(ids(t));
    assert(none + ids(t) =~= ids(t));
    assert(seq![root] + none =~= seq![root]);
    lemma_reach_tree(pages, t, none, none, page_numbers());
}

} // verus!

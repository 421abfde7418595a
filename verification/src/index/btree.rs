//! A B-tree on pages, with linked leaves.

use super::entries::{
    bounded, has_key, inserted, key_position, lemma_inserted_bounded, lemma_inserted_in_middle,
    lemma_has_key, lemma_inserted_sorted, lemma_key_position, lemma_key_position_is, removed,
    sorted,
};
use super::graft::{
    grown, keys_with, kids_with, lemma_branch_is_row, lemma_graft, lemma_row_frame,
    lemma_row_is_branch, lemma_row_of_one, lemma_row_of_two, lemma_row_split, row_sound,
};
use super::key::MAX_KEY_LEN;
use super::leaf::leaf_cells_are_distinct;
use super::node::{
    branch_keys, branch_kids, branch_sizes, build_branch_page, build_leaf_page, byte_midpoint,
    entry_models, leaf_sizes, lemma_all_live, lemma_branch_halves, lemma_branch_sizes,
    lemma_leaf_halves, lemma_leaf_sizes, lemma_live_fits, page_room, read_branch,
    read_leaf, total, CAPACITY,
};
use super::range::KeyRange;
use super::reach::{
    is_branch, kids_at, lemma_branch_of, lemma_reached_tree, page_at, page_numbers, reach, reached,
    scanned,
};
use super::walk::{find_entry, find_leaf, leaf_for, lemma_leaf_decides, walk_all, walk_range};
use super::Index;
use super::runs::{
    appended, at_edge, edge_kept, fits_leaf, leaf_runs, lemma_edge_branch, lemma_one_fits,
    lemma_runs_concat, lemma_runs_single, runs, runs_list,
};
use super::shape::{lemma_leaf_ids, lemma_leaves, lemma_tree_unique, trees_are_flat, MAX_LEVELS};
use super::tree::{
    after_kid, branch_cells, child_index, contents, contents_list, first_leaf, has_tree, high_bound,
    ids, ids_list, in_order, is_branch_page, is_tree, leaf_cells, leaves, leaves_list,
    lemma_child_index_is, lemma_contains_concat, lemma_ids_list_kid, lemma_kid_ids,
    lemma_list_around, lemma_no_duplicates_parts, lemma_root_in_ids, lemma_routed,
    lemma_single_list, lemma_stored_frame, lemma_stored_ids, level, linked, low_bound, roots, sound,
    stored, tree_at, Entry, Tree,
};
use crate::bytes::bytes_equal;
use crate::catalog::chain::listed;
use crate::decode::corrupt;
use crate::error::{ErrorKind, IoError, IoResult};
use crate::order::{
    bytes_less, bytes_lt, lemma_le_is_not_gt, lemma_lt_asymmetric, lemma_lt_irreflexive,
    lemma_lt_le_transitive,
};
use crate::storage::page::{lemma_live_delete, live, parse_page};
use crate::storage::{PageId, PageStore, PageType, RecordLocation, SlottedPage};
use crate::text::{decimal_text, join};
use vstd::prelude::*;
use vstd::slice::slice_to_vec;

verus! {

/// The disk-backed index: a B-tree with linked leaves (leaves double as a
/// sorted linked list through their page's link; a branch page's link is
/// its rightmost child).
///
/// Keys are byte strings of up to `MAX_KEY_LEN` bytes, compared byte by
/// byte. The root page's number never changes once an index is created, but
/// the page at it can change from a leaf into a branch, and later from a
/// branch into a taller branch, as the tree grows.
pub struct BTreeIndex {
    pub root: PageId,
}

/// What a B-tree holds; `None` if its pages are damaged.
pub open spec fn tree_entries(pages: Map<PageId, Seq<u8>>, root: PageId) -> Option<Seq<Entry>> {
    if has_tree(pages, root) {
        Some(contents(tree_at(pages, root)))
    } else {
        None
    }
}

/// The pages a B-tree is made of.
pub open spec fn tree_pages(pages: Map<PageId, Seq<u8>>, root: PageId) -> Seq<PageId> {
    ids(tree_at(pages, root))
}

/// Once a tree is found, it is the one.
pub proof fn lemma_tree_at(pages: Map<PageId, Seq<u8>>, root: PageId, t: Tree)
    requires
        is_tree(pages, root, t),
    ensures
        has_tree(pages, root),
        tree_at(pages, root) == t,
        tree_entries(pages, root) == Some(contents(t)),
        tree_pages(pages, root) == ids(t),
{
    lemma_tree_unique(pages, root, tree_at(pages, root), t);
}

/// Two leaves with the same cells hold the same entries.
pub proof fn lemma_leaf_cells_injective(a: Seq<Entry>, b: Seq<Entry>)
    requires
        leaf_cells(a) == leaf_cells(b),
    ensures
        a == b,
{
    assert(a.len() == leaf_cells(a).len() && b.len() == leaf_cells(b).len());
    assert forall|i: int| 0 <= i < a.len() implies a[i] == b[i] by {
        assert(leaf_cells(a)[i] == leaf_cells(b)[i]);
        leaf_cells_are_distinct(a[i].0, a[i].1, b[i].0, b[i].1);
    }
    assert(a =~= b);
}

/// Two branches with the same cells and link have the same separators and
/// kids.
pub proof fn lemma_branch_cells_injective(
    j: Seq<Seq<u8>>,
    r: Seq<PageId>,
    k: Seq<Seq<u8>>,
    s: Seq<PageId>,
)
    requires
        branch_cells(j, r) == branch_cells(k, s),
        r.len() == j.len() + 1,
        s.len() == k.len() + 1,
        r[j.len() as int] == s[k.len() as int],
    ensures
        j == k,
        r == s,
{
    assert(j.len() == branch_cells(j, r).len() && k.len() == branch_cells(k, s).len());
    assert forall|i: int| 0 <= i < j.len() implies j[i] == k[i] && r[i] == s[i] by {
        assert(branch_cells(j, r)[i] == branch_cells(k, s)[i]);
        super::branch::branch_cells_are_distinct(j[i], r[i], k[i], s[i]);
    }
    assert(j =~= k);
    assert(r =~= s);
}

pub fn wrong_page_type(page_id: PageId) -> (e: IoError)
    ensures
        e.kind == ErrorKind::InvalidData,
{
    let number = decimal_text(page_id);
    corrupt(
        join(
            &["page ", number.as_str(), " was expected to be an index leaf or branch"],
        ).as_str(),
    )
}

fn too_deep() -> (e: IoError)
    ensures
        e.kind == ErrorKind::InvalidData,
{
    corrupt("an index is deeper than its pages allow")
}

/// What happened after inserting into a page: either it fit, or the page
/// split and the caller needs to route around the new sibling.
enum InsertOutcome {
    Done(Ghost<Tree>),
    Split { separator: Vec<u8>, new_right: PageId, trees: Ghost<(Tree, Tree)> },
}

/// Whether a key is in `[low, high)`.
pub open spec fn within_bounds(key: Seq<u8>, low: Seq<u8>, high: Option<Seq<u8>>) -> bool {
    !bytes_lt(key, low) && (high matches Some(h) ==> bytes_lt(key, h))
}

/// More bytes than a key on a page can have, even a damaged one.
const LONGEST_KEY: usize = 9215;

/// Whether a separator, if there is one, came from a page.
spec fn short_separator(r: IoResult<InsertOutcome>) -> bool {
    r matches Ok(InsertOutcome::Split { separator, .. }) ==> separator@.len() <= LONGEST_KEY
}

/// What an insert into the tree `t` leaves behind.
spec fn insert_done(
    before: Map<PageId, Seq<u8>>,
    pages: Map<PageId, Seq<u8>>,
    t: Tree,
    low: Seq<u8>,
    high: Option<Seq<u8>>,
    after: PageId,
    key: Seq<u8>,
    loc: RecordLocation,
    outcome: InsertOutcome,
) -> bool {
    match outcome {
        InsertOutcome::Done(now) => {
            &&& sound(pages, now@, low, high, after)
            &&& now@.id() == t.id()
            &&& level(now@) == level(t)
            &&& first_leaf(now@) == first_leaf(t)
            &&& contents(now@) == inserted(contents(t), key, loc)
            &&& edge_kept(t, (key, loc), after, runs(now@))
            &&& grown(before, pages, t, seq![now@])
        },
        InsertOutcome::Split { separator, new_right, trees } => {
            let l = trees@.0;
            let r = trees@.1;
            &&& sound(pages, l, low, Some(separator@), first_leaf(r))
            &&& sound(pages, r, separator@, high, after)
            &&& l.id() == t.id()
            &&& r.id() == new_right
            &&& level(l) == level(t)
            &&& level(r) == level(t)
            &&& first_leaf(l) == first_leaf(t)
            &&& separator@.len() <= MAX_KEY_LEN
            &&& bytes_lt(low, separator@)
            &&& (high matches Some(h) ==> bytes_lt(separator@, h))
            &&& contents(l) + contents(r) == inserted(contents(t), key, loc)
            &&& edge_kept(t, (key, loc), after, runs(l) + runs(r))
            &&& (forall|p: PageId| !(#[trigger] ids(l).contains(p) && ids(r).contains(p)))
            &&& grown(before, pages, t, seq![l, r])
        },
    }
}

/// Puts an entry into sorted entries, or replaces the one with its key.
fn insert_sorted(entries: &mut Vec<(Vec<u8>, RecordLocation)>, key: &[u8], loc: RecordLocation)
    ensures
        entry_models(final(entries)@) == inserted(entry_models(old(entries)@), key@, loc),
{
    let ghost models = entry_models(entries@);
    let n: usize = entries.len();
    let mut pos: usize = 0;
    while pos < n && bytes_less(entries[pos].0.as_slice(), key)
        invariant
            pos <= n == entries@.len(),
            models == entry_models(entries@),
            forall|i: int| 0 <= i < pos ==> bytes_lt((#[trigger] models[i]).0, key@),
        decreases n - pos,
    {
        assert(bytes_lt(models[pos as int].0, key@));
        pos = pos + 1;
    }
    proof {
        if pos < n {
            assert(!bytes_lt(models[pos as int].0, key@));
        }
        lemma_key_position_is(models, key@, pos as int);
    }
    if pos < n && bytes_equal(entries[pos].0.as_slice(), key) {
        let entry: (Vec<u8>, RecordLocation) = (slice_to_vec(key), loc);
        entries.set(pos, entry);
        assert(entry_models(entries@) =~= models.update(pos as int, (key@, loc)));
    } else {
        let entry: (Vec<u8>, RecordLocation) = (slice_to_vec(key), loc);
        entries.insert(pos, entry);
        assert(entry_models(entries@) =~= models.insert(pos as int, (key@, loc)));
    }
}

/// The cell sizes of leaf entries.
fn leaf_cell_sizes(entries: &Vec<(Vec<u8>, RecordLocation)>) -> (sizes: Vec<usize>)
    requires
        forall|i: int| 0 <= i < entries@.len() ==> (#[trigger] entries@[i]).0@.len() <= 100_000,
    ensures
        sizes@.len() == entries@.len(),
        Seq::new(sizes@.len(), |i: int| sizes@[i] as nat) == leaf_sizes(entry_models(entries@)),
{
    let n: usize = entries.len();
    let mut sizes: Vec<usize> = Vec::new();
    for i in 0..n
        invariant
            n == entries@.len(),
            forall|i: int|
                0 <= i < entries@.len() ==> (#[trigger] entries@[i]).0@.len() <= 100_000,
            sizes@.len() == i,
            forall|k: int| 0 <= k < i ==> #[trigger] sizes@[k] == entries@[k].0@.len() + 10,
    {
        assert(entries@[i as int].0@.len() <= 100_000);
        sizes.push(entries[i].0.len() + 10);
    }
    assert(Seq::new(sizes@.len(), |i: int| sizes@[i] as nat) =~= leaf_sizes(
        entry_models(entries@),
    ));
    sizes
}

/// The sizes of one more entry, or of a replaced one.
proof fn lemma_inserted_sizes(entries: Seq<Entry>, key: Seq<u8>, loc: RecordLocation)
    ensures
        page_room(leaf_sizes(inserted(entries, key, loc))) <= page_room(leaf_sizes(entries))
            + key.len() + 14,
        has_key(entries, key) ==> page_room(leaf_sizes(inserted(entries, key, loc))) == page_room(
            leaf_sizes(entries),
        ),
{
    lemma_key_position(entries, key);
    let at = key_position(entries, key);
    let before = leaf_sizes(entries);
    let now = leaf_sizes(inserted(entries, key, loc));
    if has_key(entries, key) {
        assert(now =~= before);
    } else {
        super::node::lemma_total_parts(now, at);
        super::node::lemma_total_parts(now.skip(at), 1);
        super::node::lemma_total_parts(before, at);
        assert(now.take(at) =~= before.take(at));
        assert(now.skip(at).skip(1) =~= before.skip(at));
        let one = now.skip(at).take(1);
        assert(one.drop_last() =~= Seq::<nat>::empty());
        assert(one.last() == key.len() + 10);
        assert(total(one) == total(one.drop_last()) + one.last());
        assert(total(Seq::<nat>::empty()) == 0);
    }
}

proof fn lemma_total_bounds(entries: Seq<Entry>)
    ensures
        forall|i: int|
            0 <= i < entries.len() ==> (#[trigger] entries[i]).0.len() + 10 <= total(
                leaf_sizes(entries),
            ),
{
    let s = leaf_sizes(entries);
    assert forall|i: int| 0 <= i < entries.len() implies (#[trigger] entries[i]).0.len() + 10
        <= total(s) by {
        super::node::lemma_total_step(s, i);
        assert(s[i] == entries[i].0.len() + 10);
    }
}

/// A rewritten leaf is sound.
proof fn lemma_leaf_done(
    pages: Map<PageId, Seq<u8>>,
    before: Map<PageId, Seq<u8>>,
    t: Tree,
    now: Tree,
    low: Seq<u8>,
    high: Option<Seq<u8>>,
    after: PageId,
)
    requires
        t is Leaf,
        now is Leaf,
        now.id() == t.id(),
        now->next == after,
        in_order(now, low, high),
        stored(pages, now),
        before.dom().contains(t.id()),
        forall|p: PageId| #[trigger] pages.dom().contains(p) <==> before.dom().contains(p),
        forall|p: PageId| #[trigger]
            before.dom().contains(p) && p != t.id() ==> pages[p] == before[p],
    ensures
        sound(pages, now, low, high, after),
        grown(before, pages, t, seq![now]),
{
    lemma_single_list(now);
    assert(ids(t) =~= seq![t.id()]);
    assert(ids_list(seq![now]) =~= seq![t.id()]);
    assert(seq![t.id()][0] == t.id());
    assert(seq![t.id()].contains(t.id()));
}

/// Keys of entries that an insert leaves are no longer than before.
proof fn lemma_inserted_key_lens(entries: Seq<Entry>, key: Seq<u8>, loc: RecordLocation)
    requires
        forall|i: int| 0 <= i < entries.len() ==> (#[trigger] entries[i]).0.len() <= MAX_KEY_LEN,
        key.len() <= MAX_KEY_LEN,
    ensures
        forall|i: int|
            0 <= i < inserted(entries, key, loc).len() ==> (#[trigger] inserted(
                entries,
                key,
                loc,
            )[i]).0.len() <= MAX_KEY_LEN,
{
    lemma_key_position(entries, key);
    let now = inserted(entries, key, loc);
    let at = key_position(entries, key);
    assert forall|i: int| 0 <= i < now.len() implies (#[trigger] now[i]).0.len() <= MAX_KEY_LEN by {
        if has_key(entries, key) {
            if i != at {
                assert(now[i] == entries[i]);
            }
        } else if i < at {
            assert(now[i] == entries[i]);
        } else if i > at {
            assert(now[i] == entries[i - 1]);
        }
    }
}

#[verifier::rlimit(50)]
fn insert_into_leaf<S: PageStore>(
    store: &mut S,
    page_id: PageId,
    page: SlottedPage,
    key: &[u8],
    loc: RecordLocation,
    Ghost(t): Ghost<Tree>,
    Ghost(low): Ghost<Seq<u8>>,
    Ghost(high): Ghost<Option<Seq<u8>>>,
    Ghost(after): Ghost<PageId>,
) -> (r: IoResult<InsertOutcome>)
    requires
        old(store).wf(),
        page.wf(),
        key@.len() <= MAX_KEY_LEN,
    ensures
        final(store).wf(),
        final(store).reliable() == old(store).reliable(),
        old(store).packed() && r is Ok ==> final(store).packed(),
        ({
            let before = old(store).pages();
            &&& t is Leaf
            &&& t.id() == page_id
            &&& sound(before, t, low, high, after)
            &&& parse_page(before[page_id]) == Some(page@)
            &&& within_bounds(key@, low, high)
        }) ==> match r {
            Ok(outcome) => insert_done(
                old(store).pages(),
                final(store).pages(),
                t,
                low,
                high,
                after,
                key@,
                loc,
                outcome,
            ),
            Err(_) => !old(store).reliable() || final(store).full(),
        },
        short_separator(r),
{
    let ghost before = store.pages();
    let ghost good = {
        &&& t is Leaf
        &&& t.id() == page_id
        &&& sound(before, t, low, high, after)
        &&& parse_page(before[page_id]) == Some(page@)
        &&& within_bounds(key@, low, high)
    };
    let next_page: PageId = page.next_page();
    let mut entries = match read_leaf(&page) {
        Ok(entries) => entries,
        Err(e) => {
            proof {
                if good {
                    assert(live(page@.slots) == leaf_cells(t->entries));
                }
            }
            return Err(e);
        },
    };
    let ghost old_entries = entry_models(entries@);
    proof {
        page.lemma_wf_fits();
        lemma_live_fits(page@.slots);
        lemma_leaf_sizes(old_entries);
        if good {
            lemma_leaf_cells_injective(old_entries, t->entries);
        }
    }
    insert_sorted(&mut entries, key, loc);
    let ghost now = entry_models(entries@);
    proof {
        lemma_inserted_sizes(old_entries, key@, loc);
        if good {
            lemma_inserted_sorted(old_entries, key@, loc);
            lemma_inserted_bounded(old_entries, key@, loc, low, high);
            lemma_inserted_key_lens(old_entries, key@, loc);
        }
    }
    proof {
        if good && at_edge(t, key@, after) {
            assert forall|i: int| 0 <= i < old_entries.len() implies bytes_lt(
                (#[trigger] old_entries[i]).0,
                key@,
            ) by {
                assert(contents(t)[i] == old_entries[i]);
            }
            lemma_pushed(old_entries, key@, loc);
        }
    }
    match build_leaf_page(&entries, next_page) {
        Some(full_page) => {
            proof {
                full_page.lemma_wf_fits();
                lemma_all_live(leaf_cells(now));
                lemma_leaf_sizes(now);
            }
            let bytes = full_page.into_bytes();
            match store.write_page(page_id, bytes.as_slice()) {
                Ok(()) => {},
                Err(e) => return Err(e),
            }
            let ghost new_tree = Tree::Leaf { id: page_id, entries: now, next: next_page };
            proof {
                if good {
                    lemma_leaf_done(store.pages(), before, t, new_tree, low, high, after);
                    if at_edge(t, key@, after) {
                        assert(runs(t) =~= seq![old_entries]);
                        assert(appended(runs(t), (key@, loc)) =~= seq![now]);
                    }
                }
            }
            Ok(InsertOutcome::Done(Ghost(new_tree)))
        },
        None => {
            let last: usize = entries.len();
            let edge: bool = next_page == 0 && last > 0 && bytes_equal(
                entries[last - 1].0.as_slice(),
                key,
            );
            proof {
                if good {
                    lemma_edge_rest(old_entries, key@, loc);
                    if last > 0 {
                        assert(now[last - 1].0 == entries@[last - 1].0@);
                    }
                }
            }
            let r = split_leaf(
                store,
                page_id,
                entries,
                next_page,
                edge,
                Ghost(t),
                Ghost(low),
                Ghost(high),
                Ghost(after),
                Ghost(good),
            );
            proof {
                if good && at_edge(t, key@, after) {
                    assert(runs(t) =~= seq![old_entries]);
                    assert(now.drop_last() =~= old_entries);
                    assert(appended(runs(t), (key@, loc)) =~= seq![
                        old_entries,
                        seq![(key@, loc)],
                    ]);
                }
            }
            r
        },
    }
}

/// A key behind all others goes to the end.
proof fn lemma_pushed(entries: Seq<Entry>, key: Seq<u8>, loc: RecordLocation)
    requires
        forall|i: int| 0 <= i < entries.len() ==> bytes_lt((#[trigger] entries[i]).0, key),
    ensures
        inserted(entries, key, loc) == entries.push((key, loc)),
{
    lemma_key_position_is(entries, key, entries.len() as int);
    assert(inserted(entries, key, loc) =~= entries.push((key, loc)));
}

/// What is in front of the last entry was there before it came, or there is no
/// more than before.
proof fn lemma_edge_rest(entries: Seq<Entry>, key: Seq<u8>, loc: RecordLocation)
    requires
        sorted(entries),
    ensures
        ({
            let now = inserted(entries, key, loc);
            now.len() > 0 && now.last().0 == key ==> now.drop_last() == entries || page_room(
                leaf_sizes(now),
            ) == page_room(leaf_sizes(entries))
        }),
{
    let now = inserted(entries, key, loc);
    lemma_inserted_sizes(entries, key, loc);
    lemma_key_position(entries, key);
    let at = key_position(entries, key);
    if !has_key(entries, key) && now.last().0 == key {
        if at < entries.len() {
            assert(now.last() == entries.last());
            lemma_has_key(entries, key, entries.len() - 1);
        }
        assert(now.drop_last() =~= entries);
    }
}

/// Splits a leaf's overflowing entries over its page and a new one: by bytes,
/// but where the last entry came to the end of the last leaf, that one alone
/// goes to the new page, so that leaves fill when keys come in order.
#[verifier::rlimit(50)]
fn split_leaf<S: PageStore>(
    store: &mut S,
    page_id: PageId,
    all_entries: Vec<(Vec<u8>, RecordLocation)>,
    next_page: PageId,
    edge: bool,
    Ghost(t): Ghost<Tree>,
    Ghost(low): Ghost<Seq<u8>>,
    Ghost(high): Ghost<Option<Seq<u8>>>,
    Ghost(after): Ghost<PageId>,
    Ghost(good): Ghost<bool>,
) -> (r: IoResult<InsertOutcome>)
    requires
        old(store).wf(),
        CAPACITY < page_room(leaf_sizes(entry_models(all_entries@))) <= CAPACITY + MAX_KEY_LEN + 14,
        good && edge ==> fits_leaf(entry_models(all_entries@).drop_last()),
        good ==> {
            &&& t is Leaf
            &&& t.id() == page_id
            &&& next_page == after
            &&& old(store).pages().dom().contains(page_id)
            &&& sorted(entry_models(all_entries@))
            &&& bounded(entry_models(all_entries@), low, high)
            &&& forall|i: int|
                0 <= i < all_entries@.len() ==> (#[trigger] entry_models(all_entries@)[i]).0.len()
                    <= MAX_KEY_LEN
        },
    ensures
        final(store).wf(),
        final(store).reliable() == old(store).reliable(),
        old(store).packed() && r is Ok ==> final(store).packed(),
        good ==> match r {
            Ok(InsertOutcome::Split { separator, new_right, trees }) => {
                let l = trees@.0;
                let r = trees@.1;
                let before = old(store).pages();
                let pages = final(store).pages();
                &&& sound(pages, l, low, Some(separator@), first_leaf(r))
                &&& sound(pages, r, separator@, high, after)
                &&& l is Leaf
                &&& r is Leaf
                &&& l.id() == t.id()
                &&& r.id() == new_right
                &&& separator@.len() <= MAX_KEY_LEN
                &&& bytes_lt(low, separator@)
                &&& (high matches Some(h) ==> bytes_lt(separator@, h))
                &&& contents(l) + contents(r) == entry_models(all_entries@)
                &&& edge ==> runs(l) + runs(r) == seq![
                    entry_models(all_entries@).drop_last(),
                    seq![entry_models(all_entries@).last()],
                ]
                &&& (forall|p: PageId| !(#[trigger] ids(l).contains(p) && ids(r).contains(p)))
                &&& grown(before, pages, t, seq![l, r])
            },
            Ok(InsertOutcome::Done(_)) => false,
            Err(_) => !old(store).reliable() || final(store).full(),
        },
        short_separator(r),
{
    let ghost before = store.pages();
    let ghost now = entry_models(all_entries@);
    let mut entries = all_entries;
    proof {
        lemma_total_bounds(now);
        assert forall|i: int| 0 <= i < entries@.len() implies (#[trigger] entries@[i]).0@.len()
            <= 100_000 by {
            assert(now[i].0 == entries@[i].0@);
        }
        if entries@.len() == 0 {
            assert(leaf_sizes(now).len() == 0);
        }
    }
    let sizes = leaf_cell_sizes(&entries);
    let mid: usize = if edge {
        entries.len() - 1
    } else {
        byte_midpoint(&sizes)
    };
    proof {
        if good && edge {
            let e = now.last();
            assert(now[now.len() - 1].0.len() <= MAX_KEY_LEN);
            lemma_one_fits(e);
            if now.len() == 1 {
                assert(now =~= seq![e]);
            }
            assert(now.take(mid as int) =~= now.drop_last());
            assert(now.skip(mid as int) =~= seq![e]);
        } else if good {
            assert forall|i: int| 0 <= i < leaf_sizes(now).len() implies 10
                <= #[trigger] leaf_sizes(now)[i] <= MAX_KEY_LEN + 10 by {
                assert(now[i].0.len() <= MAX_KEY_LEN);
            }
            lemma_leaf_halves(leaf_sizes(now), mid as int);
        }
    }
    if mid == 0 || mid >= entries.len() {
        return Err(corrupt("an index leaf cannot be split"));
    }
    let right_entries: Vec<(Vec<u8>, RecordLocation)> = entries.split_off(mid);
    let ghost a = now.take(mid as int);
    let ghost b = now.skip(mid as int);
    proof {
        assert(entry_models(entries@) =~= a);
        assert(entry_models(right_entries@) =~= b);
        assert(leaf_sizes(a) =~= leaf_sizes(now).take(mid as int));
        assert(leaf_sizes(b) =~= leaf_sizes(now).skip(mid as int));
        lemma_all_live(leaf_cells(a));
        lemma_all_live(leaf_cells(b));
    }
    // Smallest key of the right half, copied up (leaves keep it too).
    let separator: Vec<u8> = slice_to_vec(right_entries[0].0.as_slice());
    assert(separator@ == now[mid as int].0);
    let new_right_id: PageId = match store.allocate_page() {
        Ok(id) => id,
        Err(e) => return Err(e),
    };
    let left = match build_leaf_page(&entries, new_right_id) {
        Some(page) => page,
        None => return Err(corrupt("half of an index leaf does not fit")),
    };
    let right = match build_leaf_page(&right_entries, next_page) {
        Some(page) => page,
        None => return Err(corrupt("half of an index leaf does not fit")),
    };
    let left_bytes = left.into_bytes();
    match store.write_page(page_id, left_bytes.as_slice()) {
        Ok(()) => {},
        Err(e) => return Err(e),
    }
    let right_bytes = right.into_bytes();
    match store.write_page(new_right_id, right_bytes.as_slice()) {
        Ok(()) => {},
        Err(e) => return Err(e),
    }
    let ghost l = Tree::Leaf { id: page_id, entries: a, next: new_right_id };
    let ghost r = Tree::Leaf { id: new_right_id, entries: b, next: next_page };
    proof {
        if good {
            lemma_leaf_split(store.pages(), before, t, now, mid as int, l, r, low, high, after);
            assert(contents(l) + contents(r) =~= now);
            if edge {
                assert(runs(l) + runs(r) =~= seq![now.drop_last(), seq![now.last()]]);
            }
        }
    }
    Ok(InsertOutcome::Split { separator, new_right: new_right_id, trees: Ghost((l, r)) })
}

/// The halves of a leaf are sound, side by side.
proof fn lemma_leaf_split(
    pages: Map<PageId, Seq<u8>>,
    before: Map<PageId, Seq<u8>>,
    t: Tree,
    now: Seq<Entry>,
    mid: int,
    l: Tree,
    r: Tree,
    low: Seq<u8>,
    high: Option<Seq<u8>>,
    after: PageId,
)
    requires
        t is Leaf,
        0 < mid < now.len(),
        sorted(now),
        bounded(now, low, high),
        forall|i: int| 0 <= i < now.len() ==> (#[trigger] now[i]).0.len() <= MAX_KEY_LEN,
        l == (Tree::Leaf { id: t.id(), entries: now.take(mid), next: r.id() }),
        r == (Tree::Leaf { id: r.id(), entries: now.skip(mid), next: after }),
        stored(pages, l),
        stored(pages, r),
        before.dom().contains(t.id()),
        !before.dom().contains(r.id()),
        forall|p: PageId| #[trigger]
            pages.dom().contains(p) <==> before.dom().contains(p) || p == r.id(),
        forall|p: PageId| #[trigger]
            before.dom().contains(p) && p != t.id() ==> pages[p] == before[p],
    ensures
        sound(pages, l, low, Some(now[mid].0), first_leaf(r)),
        sound(pages, r, now[mid].0, high, after),
        bytes_lt(low, now[mid].0),
        high matches Some(h) ==> bytes_lt(now[mid].0, h),
        forall|p: PageId| !(#[trigger] ids(l).contains(p) && ids(r).contains(p)),
        grown(before, pages, t, seq![l, r]),
{
    let sep = now[mid].0;
    let a = now.take(mid);
    let b = now.skip(mid);
    assert forall|i: int| 0 <= i < a.len() implies !bytes_lt((#[trigger] a[i]).0, low) && bytes_lt(
        a[i].0,
        sep,
    ) by {
        assert(a[i] == now[i]);
        assert(bytes_lt(now[i].0, now[mid].0));
    }
    assert forall|i: int| 0 <= i < b.len() implies !bytes_lt((#[trigger] b[i]).0, sep) && (
    high matches Some(h) ==> bytes_lt(b[i].0, h)) by {
        assert(b[i] == now[mid + i]);
        if i == 0 {
            lemma_lt_irreflexive(sep);
        } else {
            assert(bytes_lt(now[mid].0, now[mid + i].0));
            lemma_lt_asymmetric(now[mid].0, now[mid + i].0);
        }
    }
    assert forall|i: int, j: int| 0 <= i < j < b.len() implies bytes_lt(
        (#[trigger] b[i]).0,
        (#[trigger] b[j]).0,
    ) by {
        assert(bytes_lt(now[mid + i].0, now[mid + j].0));
    }
    lemma_le_is_not_gt(low, now[0].0);
    assert(bytes_lt(now[0].0, now[mid].0));
    lemma_lt_le_transitive(low, now[0].0, sep);
    assert(!bytes_lt(now[mid].0, low));
    assert forall|i: int| 0 <= i < b.len() implies (#[trigger] b[i]).0.len() <= MAX_KEY_LEN by {
        assert(b[i] == now[mid + i]);
    }
    assert forall|i: int| 0 <= i < a.len() implies (#[trigger] a[i]).0.len() <= MAX_KEY_LEN by {
        assert(a[i] == now[i]);
    }
    lemma_single_list(l);
    lemma_single_list(r);
    assert(seq![l, r] =~= seq![l] + seq![r]);
    super::tree::lemma_ids_concat(seq![l], seq![r]);
    let all = ids_list(seq![l, r]);
    assert(all =~= seq![t.id(), r.id()]);
    assert(all[0] == t.id() && all[1] == r.id());
    assert(ids(t) =~= seq![t.id()]);
    assert(ids(t)[0] == t.id());
    assert(ids(t).contains(t.id()));
}

/// Reads `page_id` and dispatches to the leaf or branch insert logic: the
/// single recursive entry point every level of the descent calls. `depth`
/// is how many levels may follow.
fn insert_into<S: PageStore>(
    store: &mut S,
    page_id: PageId,
    key: &[u8],
    loc: RecordLocation,
    depth: usize,
    Ghost(t): Ghost<Tree>,
    Ghost(low): Ghost<Seq<u8>>,
    Ghost(high): Ghost<Option<Seq<u8>>>,
    Ghost(after): Ghost<PageId>,
) -> (r: IoResult<InsertOutcome>)
    requires
        old(store).wf(),
        key@.len() <= MAX_KEY_LEN,
    ensures
        final(store).wf(),
        final(store).reliable() == old(store).reliable(),
        old(store).packed() && r is Ok ==> final(store).packed(),
        ({
            &&& t.id() == page_id
            &&& sound(old(store).pages(), t, low, high, after)
            &&& within_bounds(key@, low, high)
            &&& level(t) < depth
        }) ==> match r {
            Ok(outcome) => insert_done(
                old(store).pages(),
                final(store).pages(),
                t,
                low,
                high,
                after,
                key@,
                loc,
                outcome,
            ),
            Err(_) => !old(store).reliable() || final(store).full(),
        },
        short_separator(r),
    decreases depth, 1nat,
{
    if depth == 0 {
        return Err(too_deep());
    }
    let bytes = match store.read_page(page_id) {
        Ok(bytes) => bytes,
        Err(e) => return Err(e),
    };
    let page = match SlottedPage::from_bytes(bytes) {
        Ok(page) => page,
        Err(e) => return Err(e),
    };
    match page.page_type() {
        PageType::IndexLeaf => insert_into_leaf(
            store,
            page_id,
            page,
            key,
            loc,
            Ghost(t),
            Ghost(low),
            Ghost(high),
            Ghost(after),
        ),
        PageType::IndexBranch => insert_into_branch(
            store,
            page_id,
            page,
            key,
            loc,
            depth - 1,
            Ghost(t),
            Ghost(low),
            Ghost(high),
            Ghost(after),
        ),
        _ => Err(wrong_page_type(page_id)),
    }
}

/// Which entry of a branch routes `target`: the first whose separator is
/// above it, or their number.
pub fn route(entries: &Vec<(Vec<u8>, PageId)>, target: &[u8]) -> (idx: usize)
    ensures
        idx == child_index(branch_keys(entries@), target@),
        idx <= entries@.len(),
{
    let ghost keys = branch_keys(entries@);
    let n: usize = entries.len();
    let mut idx: usize = 0;
    while idx < n && !bytes_less(target, entries[idx].0.as_slice())
        invariant
            idx <= n == entries@.len(),
            keys == branch_keys(entries@),
            forall|i: int| 0 <= i < idx ==> !bytes_lt(target@, #[trigger] keys[i]),
        decreases n - idx,
    {
        assert(!bytes_lt(target@, keys[idx as int]));
        idx = idx + 1;
    }
    proof {
        if idx < n {
            assert(bytes_lt(target@, keys[idx as int]));
        }
        lemma_child_index_is(keys, target@, idx as int);
    }
    idx
}

#[verifier::rlimit(50)]
fn insert_into_branch<S: PageStore>(
    store: &mut S,
    page_id: PageId,
    page: SlottedPage,
    key: &[u8],
    loc: RecordLocation,
    depth: usize,
    Ghost(t): Ghost<Tree>,
    Ghost(low): Ghost<Seq<u8>>,
    Ghost(high): Ghost<Option<Seq<u8>>>,
    Ghost(after): Ghost<PageId>,
) -> (r: IoResult<InsertOutcome>)
    requires
        old(store).wf(),
        page.wf(),
        key@.len() <= MAX_KEY_LEN,
    ensures
        final(store).wf(),
        final(store).reliable() == old(store).reliable(),
        old(store).packed() && r is Ok ==> final(store).packed(),
        ({
            let before = old(store).pages();
            &&& t is Branch
            &&& t.id() == page_id
            &&& sound(before, t, low, high, after)
            &&& parse_page(before[page_id]) == Some(page@)
            &&& within_bounds(key@, low, high)
            &&& level(t) <= depth
        }) ==> match r {
            Ok(outcome) => insert_done(
                old(store).pages(),
                final(store).pages(),
                t,
                low,
                high,
                after,
                key@,
                loc,
                outcome,
            ),
            Err(_) => !old(store).reliable() || final(store).full(),
        },
        short_separator(r),
    decreases depth, 2nat,
{
    let ghost before = store.pages();
    let ghost good = {
        &&& t is Branch
        &&& t.id() == page_id
        &&& sound(before, t, low, high, after)
        &&& parse_page(before[page_id]) == Some(page@)
        &&& within_bounds(key@, low, high)
        &&& level(t) <= depth
    };
    let rightmost: PageId = page.next_page();
    let entries = match read_branch(&page) {
        Ok(entries) => entries,
        Err(e) => {
            proof {
                if good {
                    assert(live(page@.slots) == branch_cells(t->keys, roots(t->kids)));
                }
            }
            return Err(e);
        },
    };
    let ghost kids = t->kids;
    let ghost keys = branch_keys(entries@);
    proof {
        page.lemma_wf_fits();
        lemma_live_fits(page@.slots);
        lemma_branch_sizes(keys, branch_kids(entries@, rightmost));
        if good {
            lemma_branch_cells_injective(
                keys,
                branch_kids(entries@, rightmost),
                t->keys,
                roots(kids),
            );
            lemma_branch_is_row(before, t, low, high, after);
            lemma_routed(keys, kids, low, high, key@);
        }
    }
    let idx: usize = route(&entries, key);
    let child_id: PageId = if idx < entries.len() {
        entries[idx].1
    } else {
        rightmost
    };
    let ghost kid = kids[idx as int];
    let ghost kid_low = low_bound(keys, low, idx as int);
    let ghost kid_high = high_bound(keys, high, idx as int);
    let ghost kid_after = after_kid(kids, idx as int, after);
    proof {
        if good {
            assert(child_id == roots(kids)[idx as int]);
            super::tree::lemma_kids_apart(kids, idx as int, idx as int);
            assert(linked(kid, kid_after));
            assert(sound(before, kid, kid_low, kid_high, kid_after));
            assert(level(kid) == level(kids[0]));
        }
    }
    let outcome = match insert_into(
        store,
        child_id,
        key,
        loc,
        depth,
        Ghost(kid),
        Ghost(kid_low),
        Ghost(kid_high),
        Ghost(kid_after),
    ) {
        Ok(outcome) => outcome,
        Err(e) => return Err(e),
    };
    match outcome {
        InsertOutcome::Done(now) => {
            // The child absorbed the insert, this page is unchanged.
            let ghost new_tree = Tree::Branch {
                id: page_id,
                keys,
                kids: kids_with(kids, idx as int, seq![now@]),
            };
            proof {
                if good {
                    lemma_branch_done(
                        before,
                        store.pages(),
                        t,
                        low,
                        high,
                        after,
                        idx as int,
                        now@,
                        key@,
                        loc,
                    );
                }
            }
            Ok(InsertOutcome::Done(Ghost(new_tree)))
        },
        InsertOutcome::Split { separator, new_right, trees } => {
            let ghost l = trees@.0;
            let ghost r = trees@.1;
            proof {
                if good {
                    lemma_branch_grafted(
                        before,
                        store.pages(),
                        t,
                        low,
                        high,
                        after,
                        idx as int,
                        l,
                        r,
                        separator@,
                        key@,
                        loc,
                    );
                }
            }
            absorb_split(
                store,
                page_id,
                entries,
                rightmost,
                idx,
                child_id,
                separator,
                new_right,
                Ghost(before),
                Ghost(t),
                Ghost(l),
                Ghost(r),
                Ghost(low),
                Ghost(high),
                Ghost(after),
                Ghost(key@),
                Ghost(loc),
                Ghost(good),
            )
        },
    }
}

/// What a branch with two kids in place of kid `at` is made of.
#[verifier::opaque]
spec fn grafted(
    before: Map<PageId, Seq<u8>>,
    pages: Map<PageId, Seq<u8>>,
    t: Tree,
    low: Seq<u8>,
    high: Option<Seq<u8>>,
    after: PageId,
    key: Seq<u8>,
    loc: RecordLocation,
    nk: Seq<Seq<u8>>,
    now: Seq<Tree>,
) -> bool {
    &&& row_sound(pages, nk, now, low, high, after)
    &&& now.len() >= 2
    &&& level(now[0]) + 1 == level(t)
    &&& first_leaf(now[0]) == first_leaf(t)
    &&& contents_list(now) == inserted(contents(t), key, loc)
    &&& edge_kept(t, (key, loc), after, runs_list(now))
    &&& pages.dom().contains(t.id())
    &&& !ids_list(now).contains(t.id())
    &&& grown(before, pages, t, seq![Tree::Branch { id: t.id(), keys: nk, kids: now }])
}

/// Routes a branch around the new sibling of a kid that split. The kid
/// keeps the low half, so the position that used to point at it now needs a
/// separator in front of it and must point at the new page for everything
/// from that separator on.
#[verifier::rlimit(50)]
fn absorb_split<S: PageStore>(
    store: &mut S,
    page_id: PageId,
    entries: Vec<(Vec<u8>, PageId)>,
    rightmost: PageId,
    idx: usize,
    child_id: PageId,
    separator: Vec<u8>,
    new_right: PageId,
    Ghost(before): Ghost<Map<PageId, Seq<u8>>>,
    Ghost(t): Ghost<Tree>,
    Ghost(l): Ghost<Tree>,
    Ghost(r): Ghost<Tree>,
    Ghost(low): Ghost<Seq<u8>>,
    Ghost(high): Ghost<Option<Seq<u8>>>,
    Ghost(after): Ghost<PageId>,
    Ghost(key): Ghost<Seq<u8>>,
    Ghost(loc): Ghost<RecordLocation>,
    Ghost(good): Ghost<bool>,
) -> (result: IoResult<InsertOutcome>)
    requires
        old(store).wf(),
        idx <= entries@.len(),
        separator@.len() <= LONGEST_KEY,
        page_room(branch_sizes(branch_keys(entries@))) <= CAPACITY,
        good ==> {
            &&& t is Branch
            &&& t.id() == page_id
            &&& branch_keys(entries@) == t->keys
            &&& branch_kids(entries@, rightmost) == roots(t->kids)
            &&& child_id == l.id()
            &&& new_right == r.id()
            &&& separator@.len() <= MAX_KEY_LEN
            &&& grafted(
                before,
                old(store).pages(),
                t,
                low,
                high,
                after,
                key,
                loc,
                keys_with(t->keys, idx as int, seq![separator@]),
                kids_with(t->kids, idx as int, seq![l, r]),
            )
        },
    ensures
        final(store).wf(),
        final(store).reliable() == old(store).reliable(),
        old(store).packed() && result is Ok ==> final(store).packed(),
        good ==> match result {
            Ok(outcome) => insert_done(
                before,
                final(store).pages(),
                t,
                low,
                high,
                after,
                key,
                loc,
                outcome,
            ),
            Err(_) => !old(store).reliable() || final(store).full(),
        },
        short_separator(result),
{
    let ghost old_entries = entries@;
    let ghost keys = branch_keys(entries@);
    let ghost kids = t->kids;
    let ghost sep = separator@;
    let mut all_entries = entries;
    let mut last: PageId = rightmost;
    if idx < all_entries.len() {
        let old_key: Vec<u8> = slice_to_vec(all_entries[idx].0.as_slice());
        all_entries.set(idx, (old_key, new_right));
        all_entries.insert(idx, (separator, child_id));
    } else {
        all_entries.push((separator, child_id));
        last = new_right;
    }
    let ghost nk = keys_with(keys, idx as int, seq![sep]);
    let ghost now = kids_with(kids, idx as int, seq![l, r]);
    proof {
        assert(branch_keys(all_entries@) =~= nk);
        lemma_more_keys(keys, idx as int, sep);
        lemma_key_bounds(keys);
        assert forall|i: int| 0 <= i < nk.len() implies (#[trigger] nk[i]).len() <= LONGEST_KEY by {
            if i < idx {
                assert(nk[i] == keys[i]);
            } else if i > idx {
                assert(nk[i] == keys[i - 1]);
            }
        }
        if good {
            let old_kids = branch_kids(old_entries, rightmost);
            let new_kids = branch_kids(all_entries@, last);
            assert(old_kids.len() == roots(kids).len());
            assert forall|i: int| 0 <= i < new_kids.len() implies new_kids[i] == roots(now)[i] by {
                assert(i < idx ==> now[i] == kids[i] && old_kids[i] == roots(kids)[i]);
                assert(i == idx ==> now[i] == l);
                assert(i == idx + 1 ==> now[i] == r);
                assert(i > idx + 1 ==> now[i] == kids[i - 1] && old_kids[i - 1] == roots(
                    kids,
                )[i - 1]);
            }
            assert(new_kids =~= roots(now));
        }
    }
    write_branch(
        store,
        page_id,
        all_entries,
        last,
        Ghost(before),
        Ghost(t),
        Ghost(now),
        Ghost(low),
        Ghost(high),
        Ghost(after),
        Ghost(key),
        Ghost(loc),
        Ghost(good),
    )
}

/// One more separator takes no more room than its own.
proof fn lemma_more_keys(keys: Seq<Seq<u8>>, at: int, sep: Seq<u8>)
    requires
        0 <= at <= keys.len(),
    ensures
        page_room(branch_sizes(keys_with(keys, at, seq![sep]))) == page_room(branch_sizes(keys))
            + sep.len() + 12,
{
    let now = branch_sizes(keys_with(keys, at, seq![sep]));
    let before = branch_sizes(keys);
    super::node::lemma_total_parts(now, at);
    super::node::lemma_total_parts(now.skip(at), 1);
    super::node::lemma_total_parts(before, at);
    assert(now.take(at) =~= before.take(at));
    assert(now.skip(at).skip(1) =~= before.skip(at));
    let one = now.skip(at).take(1);
    assert(one.drop_last() =~= Seq::<nat>::empty());
    assert(one.last() == sep.len() + 8);
    assert(total(one) == total(one.drop_last()) + one.last());
    assert(total(Seq::<nat>::empty()) == 0);
}

/// A branch whose kid absorbed the insert.
proof fn lemma_branch_done(
    before: Map<PageId, Seq<u8>>,
    pages: Map<PageId, Seq<u8>>,
    t: Tree,
    low: Seq<u8>,
    high: Option<Seq<u8>>,
    after: PageId,
    at: int,
    kid: Tree,
    key: Seq<u8>,
    loc: RecordLocation,
)
    requires
        t is Branch,
        sound(before, t, low, high, after),
        within_bounds(key, low, high),
        at == child_index(t->keys, key),
        0 <= at < t->kids.len(),
        sound(
            pages,
            kid,
            low_bound(t->keys, low, at),
            high_bound(t->keys, high, at),
            after_kid(t->kids, at, after),
        ),
        kid.id() == t->kids[at].id(),
        level(kid) == level(t->kids[at]),
        first_leaf(kid) == first_leaf(t->kids[at]),
        contents(kid) == inserted(contents(t->kids[at]), key, loc),
        edge_kept(t->kids[at], (key, loc), after_kid(t->kids, at, after), runs(kid)),
        grown(before, pages, t->kids[at], seq![kid]),
    ensures
        insert_done(
            before,
            pages,
            t,
            low,
            high,
            after,
            key,
            loc,
            InsertOutcome::Done(
                Ghost(
                    (Tree::Branch {
                        id: t.id(),
                        keys: t->keys,
                        kids: kids_with(t->kids, at, seq![kid]),
                    }),
                ),
            ),
        ),
{
    let keys = t->keys;
    let kids = t->kids;
    let id = t.id();
    let now = kids_with(kids, at, seq![kid]);
    let none: Seq<Seq<u8>> = seq![];
    lemma_branch_is_row(before, t, low, high, after);
    lemma_row_of_one(
        pages,
        kid,
        low_bound(keys, low, at),
        high_bound(keys, high, at),
        after_kid(kids, at, after),
    );
    assert(seq![kid][0] == kid);
    lemma_graft(before, pages, keys, kids, low, high, after, at, none, seq![kid]);
    assert(keys_with(keys, at, none) =~= keys);
    assert(roots(now) =~= roots(kids)) by {
        assert forall|i: int| 0 <= i < kids.len() implies now[i].id() == kids[i].id() by {
            if i == at {
                assert(now[i] == kid);
            } else if i < at {
                assert(now[i] == kids[i]);
            } else {
                assert(now[i] == kids[i]);
            }
        }
    }
    lemma_own_page(before, pages, t, now, seq![kid], at);
    lemma_row_is_branch(pages, id, keys, now, low, high, after);
    let new_tree = Tree::Branch { id, keys, kids: now };
    lemma_routed(keys, kids, low, high, key);
    lemma_inserted_in_middle(
        contents_list(kids.take(at)),
        contents(kids[at]),
        contents_list(kids.skip(at + 1)),
        key,
        loc,
    );
    lemma_runs_single(kid);
    lemma_edge_branch(
        t,
        low,
        high,
        at,
        seq![kid],
        now,
        (key, loc),
        after,
        after_kid(kids, at, after),
    );
    lemma_grown_branch(before, pages, t, new_tree, kids[at], at, seq![kid]);
}

/// A branch's own page is not touched by a change of a kid.
proof fn lemma_own_page(
    before: Map<PageId, Seq<u8>>,
    pages: Map<PageId, Seq<u8>>,
    t: Tree,
    now: Seq<Tree>,
    more: Seq<Tree>,
    at: int,
)
    requires
        t is Branch,
        stored(before, t),
        0 <= at < t->kids.len(),
        !ids_list(t->kids).contains(t.id()),
        grown(before, pages, t->kids[at], more),
        forall|p: PageId| #[trigger]
            ids_list(now).contains(p) <==> ids_list(t->kids).contains(p) || ids_list(
                more,
            ).contains(p),
    ensures
        pages.dom().contains(t.id()),
        pages[t.id()] == before[t.id()],
        !ids_list(now).contains(t.id()),
        !ids(t->kids[at]).contains(t.id()),
{
    if ids(t->kids[at]).contains(t.id()) {
        lemma_kid_ids(t->kids, at, t.id());
    }
}

/// The pages of a branch, of which one kid was changed.
proof fn lemma_grown_branch(
    before: Map<PageId, Seq<u8>>,
    pages: Map<PageId, Seq<u8>>,
    t: Tree,
    new_tree: Tree,
    kid: Tree,
    at: int,
    more: Seq<Tree>,
)
    requires
        t is Branch,
        new_tree is Branch,
        t.id() == new_tree.id(),
        stored(before, t),
        0 <= at < t->kids.len(),
        kid == t->kids[at],
        grown(before, pages, kid, more),
        forall|p: PageId| #[trigger]
            ids_list(new_tree->kids).contains(p) <==> ids_list(t->kids).contains(p) || ids_list(
                more,
            ).contains(p),
        forall|p: PageId| #[trigger]
            ids_list(new_tree->kids).contains(p) ==> ids_list(t->kids).contains(p)
                || !before.dom().contains(p),
    ensures
        grown(before, pages, t, seq![new_tree]),
{
    lemma_single_list(new_tree);
    let id = t.id();
    assert forall|p: PageId| true implies (#[trigger] ids(t).contains(p) <==> p == id || ids_list(
        t->kids,
    ).contains(p)) by {
        lemma_contains_concat(seq![id], ids_list(t->kids), p);
        assert(seq![id][0] == id);
    }
    assert forall|p: PageId| true implies (#[trigger] ids(new_tree).contains(p) <==> p == id
        || ids_list(new_tree->kids).contains(p)) by {
        lemma_contains_concat(seq![id], ids_list(new_tree->kids), p);
        assert(seq![id][0] == id);
    }
    assert forall|p: PageId| #[trigger] ids(kid).contains(p) implies ids_list(t->kids).contains(
        p,
    ) by {
        lemma_kid_ids(t->kids, at, p);
    }
    assert forall|p: PageId| #[trigger] ids_list(t->kids).contains(p) implies before.dom().contains(
        p,
    ) by {
        let i = lemma_ids_list_kid(t->kids, p);
        lemma_stored_ids(before, t->kids[i], p);
    }
}

/// A branch with two kids in place of one is a row again.
proof fn lemma_branch_grafted(
    before: Map<PageId, Seq<u8>>,
    pages: Map<PageId, Seq<u8>>,
    t: Tree,
    low: Seq<u8>,
    high: Option<Seq<u8>>,
    after: PageId,
    at: int,
    l: Tree,
    r: Tree,
    sep: Seq<u8>,
    key: Seq<u8>,
    loc: RecordLocation,
)
    requires
        t is Branch,
        sound(before, t, low, high, after),
        within_bounds(key, low, high),
        at == child_index(t->keys, key),
        0 <= at < t->kids.len(),
        sound(pages, l, low_bound(t->keys, low, at), Some(sep), first_leaf(r)),
        sound(
            pages,
            r,
            sep,
            high_bound(t->keys, high, at),
            after_kid(t->kids, at, after),
        ),
        l.id() == t->kids[at].id(),
        level(l) == level(t->kids[at]),
        level(r) == level(t->kids[at]),
        first_leaf(l) == first_leaf(t->kids[at]),
        sep.len() <= MAX_KEY_LEN,
        bytes_lt(low_bound(t->keys, low, at), sep),
        high_bound(t->keys, high, at) matches Some(h) ==> bytes_lt(sep, h),
        contents(l) + contents(r) == inserted(contents(t->kids[at]), key, loc),
        edge_kept(t->kids[at], (key, loc), after_kid(t->kids, at, after), runs(l) + runs(r)),
        forall|p: PageId| !(#[trigger] ids(l).contains(p) && ids(r).contains(p)),
        grown(before, pages, t->kids[at], seq![l, r]),
    ensures
        grafted(
            before,
            pages,
            t,
            low,
            high,
            after,
            key,
            loc,
            keys_with(t->keys, at, seq![sep]),
            kids_with(t->kids, at, seq![l, r]),
        ),
{
    reveal(grafted);
    let keys = t->keys;
    let kids = t->kids;
    let more = seq![l, r];
    let now = kids_with(kids, at, more);
    let nk = keys_with(keys, at, seq![sep]);
    lemma_branch_is_row(before, t, low, high, after);
    lemma_row_of_two(
        pages,
        l,
        r,
        sep,
        low_bound(keys, low, at),
        high_bound(keys, high, at),
        after_kid(kids, at, after),
    );
    assert(more[0] == l);
    lemma_graft(before, pages, keys, kids, low, high, after, at, seq![sep], more);
    lemma_own_page(before, pages, t, now, more, at);
    lemma_routed(keys, kids, low, high, key);
    lemma_inserted_in_middle(
        contents_list(kids.take(at)),
        contents(kids[at]),
        contents_list(kids.skip(at + 1)),
        key,
        loc,
    );
    let new_tree = Tree::Branch { id: t.id(), keys: nk, kids: now };
    lemma_runs_single(l);
    lemma_runs_single(r);
    assert(more =~= seq![l] + seq![r]);
    lemma_runs_concat(seq![l], seq![r]);
    lemma_edge_branch(
        t,
        low,
        high,
        at,
        more,
        now,
        (key, loc),
        after,
        after_kid(kids, at, after),
    );
    lemma_grown_branch(before, pages, t, new_tree, kids[at], at, more);
}

/// Each separator is shorter than all of them together.
proof fn lemma_key_bounds(keys: Seq<Seq<u8>>)
    ensures
        forall|i: int|
            0 <= i < keys.len() ==> (#[trigger] keys[i]).len() + 8 <= total(branch_sizes(keys)),
{
    let s = branch_sizes(keys);
    assert forall|i: int| 0 <= i < keys.len() implies (#[trigger] keys[i]).len() + 8 <= total(
        s,
    ) by {
        super::node::lemma_total_step(s, i);
        assert(s[i] == keys[i].len() + 8);
    }
}

/// The cell sizes of branch entries.
fn branch_cell_sizes(entries: &Vec<(Vec<u8>, PageId)>) -> (sizes: Vec<usize>)
    requires
        forall|i: int| 0 <= i < entries@.len() ==> (#[trigger] branch_keys(entries@)[i]).len() <= LONGEST_KEY,
    ensures
        sizes@.len() == entries@.len(),
        Seq::new(sizes@.len(), |i: int| sizes@[i] as nat) == branch_sizes(branch_keys(entries@)),
{
    let n: usize = entries.len();
    let mut sizes: Vec<usize> = Vec::new();
    for i in 0..n
        invariant
            n == entries@.len(),
            forall|i: int|
                0 <= i < entries@.len() ==> (#[trigger] branch_keys(entries@)[i]).len()
                    <= LONGEST_KEY,
            sizes@.len() == i,
            forall|k: int| 0 <= k < i ==> #[trigger] sizes@[k] == entries@[k].0@.len() + 8,
    {
        assert(branch_keys(entries@)[i as int].len() <= LONGEST_KEY);
        sizes.push(entries[i].0.len() + 8);
    }
    assert(Seq::new(sizes@.len(), |i: int| sizes@[i] as nat) =~= branch_sizes(
        branch_keys(entries@),
    ));
    sizes
}

/// Writes a branch's entries to its page, splitting it if they don't fit.
#[verifier::rlimit(50)]
fn write_branch<S: PageStore>(
    store: &mut S,
    page_id: PageId,
    all_entries: Vec<(Vec<u8>, PageId)>,
    rightmost: PageId,
    Ghost(before): Ghost<Map<PageId, Seq<u8>>>,
    Ghost(t): Ghost<Tree>,
    Ghost(now): Ghost<Seq<Tree>>,
    Ghost(low): Ghost<Seq<u8>>,
    Ghost(high): Ghost<Option<Seq<u8>>>,
    Ghost(after): Ghost<PageId>,
    Ghost(key): Ghost<Seq<u8>>,
    Ghost(loc): Ghost<RecordLocation>,
    Ghost(good): Ghost<bool>,
) -> (r: IoResult<InsertOutcome>)
    requires
        old(store).wf(),
        forall|i: int|
            0 <= i < all_entries@.len() ==> (#[trigger] branch_keys(all_entries@)[i]).len()
                <= LONGEST_KEY,
        page_room(branch_sizes(branch_keys(all_entries@))) <= CAPACITY + LONGEST_KEY + 12,
        good ==> {
            let nk = branch_keys(all_entries@);
            &&& t.id() == page_id
            &&& branch_kids(all_entries@, rightmost) == roots(now)
            &&& page_room(branch_sizes(nk)) <= CAPACITY + MAX_KEY_LEN + 12
            &&& grafted(before, old(store).pages(), t, low, high, after, key, loc, nk, now)
        },
    ensures
        final(store).wf(),
        final(store).reliable() == old(store).reliable(),
        old(store).packed() && r is Ok ==> final(store).packed(),
        good ==> match r {
            Ok(outcome) => insert_done(
                before,
                final(store).pages(),
                t,
                low,
                high,
                after,
                key,
                loc,
                outcome,
            ),
            Err(_) => !old(store).reliable() || final(store).full(),
        },
        short_separator(r),
{
    let ghost nk = branch_keys(all_entries@);
    let ghost start = store.pages();
    proof {
        reveal(grafted);
    }
    match build_branch_page(&all_entries, rightmost) {
        Some(page) => {
            let bytes = page.into_bytes();
            proof {
                lemma_all_live(branch_cells(nk, branch_kids(all_entries@, rightmost)));
            }
            match store.write_page(page_id, bytes.as_slice()) {
                Ok(()) => {},
                Err(e) => return Err(e),
            }
            let ghost new_tree = Tree::Branch { id: page_id, keys: nk, kids: now };
            proof {
                if good {
                    let pages = store.pages();
                    assert forall|p: PageId| #[trigger]
                        ids_list(now).contains(p) implies pages.dom().contains(p) && pages[p]
                        == start[p] by {
                        lemma_row_pages(start, nk, now, low, high, after, p);
                    }
                    lemma_row_frame(start, pages, nk, now, low, high, after);
                    lemma_row_is_branch(pages, page_id, nk, now, low, high, after);
                    lemma_root_in_ids(t);
                    assert(grown(before, pages, t, seq![new_tree]));
                }
            }
            return Ok(InsertOutcome::Done(Ghost(new_tree)));
        },
        None => {},
    }
    split_branch(
        store,
        page_id,
        all_entries,
        rightmost,
        Ghost(before),
        Ghost(t),
        Ghost(now),
        Ghost(low),
        Ghost(high),
        Ghost(after),
        Ghost(key),
        Ghost(loc),
        Ghost(good),
    )
}

/// Splits a branch's overflowing entries over its page and a new one, by
/// bytes, promoting the entry at the split point into the parent instead of
/// copying it (branch keys are routing information, not data).
#[verifier::rlimit(50)]
fn split_branch<S: PageStore>(
    store: &mut S,
    page_id: PageId,
    all_entries: Vec<(Vec<u8>, PageId)>,
    rightmost: PageId,
    Ghost(before): Ghost<Map<PageId, Seq<u8>>>,
    Ghost(t): Ghost<Tree>,
    Ghost(now): Ghost<Seq<Tree>>,
    Ghost(low): Ghost<Seq<u8>>,
    Ghost(high): Ghost<Option<Seq<u8>>>,
    Ghost(after): Ghost<PageId>,
    Ghost(key): Ghost<Seq<u8>>,
    Ghost(loc): Ghost<RecordLocation>,
    Ghost(good): Ghost<bool>,
) -> (r: IoResult<InsertOutcome>)
    requires
        old(store).wf(),
        forall|i: int|
            0 <= i < all_entries@.len() ==> (#[trigger] branch_keys(all_entries@)[i]).len()
                <= LONGEST_KEY,
        CAPACITY < page_room(branch_sizes(branch_keys(all_entries@))) <= CAPACITY + LONGEST_KEY
            + 12,
        good ==> {
            let nk = branch_keys(all_entries@);
            &&& t.id() == page_id
            &&& branch_kids(all_entries@, rightmost) == roots(now)
            &&& page_room(branch_sizes(nk)) <= CAPACITY + MAX_KEY_LEN + 12
            &&& grafted(before, old(store).pages(), t, low, high, after, key, loc, nk, now)
        },
    ensures
        final(store).wf(),
        final(store).reliable() == old(store).reliable(),
        old(store).packed() && r is Ok ==> final(store).packed(),
        good ==> match r {
            Ok(outcome) => insert_done(
                before,
                final(store).pages(),
                t,
                low,
                high,
                after,
                key,
                loc,
                outcome,
            ),
            Err(_) => !old(store).reliable() || final(store).full(),
        },
        short_separator(r),
{
    let ghost nk = branch_keys(all_entries@);
    let ghost start = store.pages();
    let sizes = branch_cell_sizes(&all_entries);
    proof {
        if all_entries@.len() == 0 {
            assert(branch_sizes(nk).len() == 0);
        }
    }
    let half: usize = byte_midpoint(&sizes);
    proof {
        if good {
            lemma_grafted_keys(before, start, t, low, high, after, key, loc, nk, now);
            lemma_branch_halves(branch_sizes(nk), half as int);
        }
    }
    let ghost mid = half - 1;
    let ghost orig = all_entries@;
    let mut entries = all_entries;
    let right_entries: Vec<(Vec<u8>, PageId)> = entries.split_off(half);
    let ghost kept = entries@;
    let (promoted_key, promoted_child) = match entries.pop() {
        Some(entry) => entry,
        None => return Err(corrupt("an index branch cannot be split")),
    };
    proof {
        assert(branch_keys(entries@) =~= nk.take(mid));
        assert(branch_keys(right_entries@) =~= nk.skip(mid + 1));
        assert(promoted_key@ == nk[mid]);
        assert(branch_sizes(nk.take(mid)) =~= branch_sizes(nk).take(half - 1));
        assert(branch_sizes(nk.skip(mid + 1)) =~= branch_sizes(nk).skip(half as int));
        assert(entries@ =~= orig.take(mid));
        assert(right_entries@ =~= orig.skip(mid + 1));
        if good {
            lemma_half_kids(
                orig,
                rightmost,
                entries@,
                promoted_child,
                right_entries@,
                now,
                mid,
            );
        }
    }
    let new_right_id: PageId = match store.allocate_page() {
        Ok(id) => id,
        Err(e) => return Err(e),
    };
    let ghost middle_pages = store.pages();
    let left = match build_branch_page(&entries, promoted_child) {
        Some(page) => page,
        None => return Err(corrupt("half of an index branch does not fit")),
    };
    let right = match build_branch_page(&right_entries, rightmost) {
        Some(page) => page,
        None => return Err(corrupt("half of an index branch does not fit")),
    };
    proof {
        lemma_all_live(branch_cells(branch_keys(entries@), branch_kids(entries@, promoted_child)));
        lemma_all_live(
            branch_cells(branch_keys(right_entries@), branch_kids(right_entries@, rightmost)),
        );
    }
    let left_bytes = left.into_bytes();
    match store.write_page(page_id, left_bytes.as_slice()) {
        Ok(()) => {},
        Err(e) => return Err(e),
    }
    let right_bytes = right.into_bytes();
    match store.write_page(new_right_id, right_bytes.as_slice()) {
        Ok(()) => {},
        Err(e) => return Err(e),
    }
    let ghost l = Tree::Branch { id: page_id, keys: nk.take(mid), kids: now.take(mid + 1) };
    let ghost r = Tree::Branch {
        id: new_right_id,
        keys: nk.skip(mid + 1),
        kids: now.skip(mid + 1),
    };
    proof {
        if good {
            lemma_split_done(
                before,
                start,
                store.pages(),
                t,
                nk,
                now,
                low,
                high,
                after,
                mid,
                l,
                r,
                key,
                loc,
                promoted_key,
            );
        }
    }
    Ok(
        InsertOutcome::Split {
            separator: promoted_key,
            new_right: new_right_id,
            trees: Ghost((l, r)),
        },
    )
}

/// The separators of a branch with one more kid.
proof fn lemma_grafted_keys(
    before: Map<PageId, Seq<u8>>,
    pages: Map<PageId, Seq<u8>>,
    t: Tree,
    low: Seq<u8>,
    high: Option<Seq<u8>>,
    after: PageId,
    key: Seq<u8>,
    loc: RecordLocation,
    nk: Seq<Seq<u8>>,
    now: Seq<Tree>,
)
    requires
        grafted(before, pages, t, low, high, after, key, loc, nk, now),
    ensures
        forall|i: int|
            0 <= i < branch_sizes(nk).len() ==> 8 <= #[trigger] branch_sizes(nk)[i] <= MAX_KEY_LEN
                + 8,
        pages.dom().contains(t.id()),
{
    reveal(grafted);
    assert forall|i: int| 0 <= i < branch_sizes(nk).len() implies 8 <= #[trigger] branch_sizes(
        nk,
    )[i] <= MAX_KEY_LEN + 8 by {
        assert(nk[i].len() <= MAX_KEY_LEN);
    }
}

/// A split branch is what an insert leaves behind.
proof fn lemma_split_done(
    before: Map<PageId, Seq<u8>>,
    start: Map<PageId, Seq<u8>>,
    pages: Map<PageId, Seq<u8>>,
    t: Tree,
    nk: Seq<Seq<u8>>,
    now: Seq<Tree>,
    low: Seq<u8>,
    high: Option<Seq<u8>>,
    after: PageId,
    mid: int,
    l: Tree,
    r: Tree,
    key: Seq<u8>,
    loc: RecordLocation,
    separator: Vec<u8>,
)
    requires
        grafted(before, start, t, low, high, after, key, loc, nk, now),
        0 < mid < nk.len() - 1,
        separator@ == nk[mid],
        l == (Tree::Branch { id: t.id(), keys: nk.take(mid), kids: now.take(mid + 1) }),
        r == (Tree::Branch { id: r.id(), keys: nk.skip(mid + 1), kids: now.skip(mid + 1) }),
        !start.dom().contains(r.id()),
        forall|p: PageId| #[trigger]
            pages.dom().contains(p) <==> start.dom().contains(p) || p == r.id(),
        forall|p: PageId| #[trigger]
            start.dom().contains(p) && p != t.id() ==> pages[p] == start[p],
        is_branch_page(pages[t.id()], nk.take(mid), roots(now.take(mid + 1))),
        is_branch_page(pages[r.id()], nk.skip(mid + 1), roots(now.skip(mid + 1))),
    ensures
        insert_done(
            before,
            pages,
            t,
            low,
            high,
            after,
            key,
            loc,
            InsertOutcome::Split { separator, new_right: r.id(), trees: Ghost((l, r)) },
        ),
{
    reveal(grafted);
    assert(now =~= now.take(mid + 1) + now.skip(mid + 1));
    lemma_runs_concat(now.take(mid + 1), now.skip(mid + 1));
    lemma_branch_split(before, start, pages, t, nk, now, low, high, after, mid, l, r);
}

/// The kids of two halves of a branch.
proof fn lemma_half_kids(
    all: Seq<(Vec<u8>, PageId)>,
    rightmost: PageId,
    left: Seq<(Vec<u8>, PageId)>,
    promoted: PageId,
    right: Seq<(Vec<u8>, PageId)>,
    now: Seq<Tree>,
    mid: int,
)
    requires
        0 <= mid < all.len(),
        branch_kids(all, rightmost) == roots(now),
        left == all.take(mid),
        promoted == all[mid].1,
        right == all.skip(mid + 1),
    ensures
        branch_kids(left, promoted) == roots(now.take(mid + 1)),
        branch_kids(right, rightmost) == roots(now.skip(mid + 1)),
{
    let whole = branch_kids(all, rightmost);
    assert(whole.len() == roots(now).len());
    assert(roots(now).len() == now.len());
    assert(whole.len() == all.len() + 1);
    let x = branch_kids(left, promoted);
    let nx = roots(now.take(mid + 1));
    assert(x.len() == mid + 1 && nx.len() == mid + 1);
    assert forall|i: int| 0 <= i < x.len() implies x[i] == nx[i] by {
        assert(whole[i] == roots(now)[i]);
        assert(roots(now)[i] == now[i].id());
        assert(nx[i] == now.take(mid + 1)[i].id());
        assert(whole[i] == all[i].1);
        if i < mid {
            assert(left[i] == all[i]);
        }
    }
    assert(x =~= nx);
    let y = branch_kids(right, rightmost);
    let ny = roots(now.skip(mid + 1));
    assert(y.len() == all.len() - mid && ny.len() == all.len() - mid);
    assert forall|i: int| 0 <= i < y.len() implies y[i] == ny[i] by {
        let k = i + mid + 1;
        assert(whole[k] == roots(now)[k]);
        assert(roots(now)[k] == now[k].id());
        assert(ny[i] == now.skip(mid + 1)[i].id());
        if i < right.len() {
            assert(right[i] == all[k]);
            assert(whole[k] == all[k].1);
        } else {
            assert(whole[k] == rightmost);
        }
    }
    assert(y =~= ny);
}

/// A row's pages are there.
proof fn lemma_row_pages(
    pages: Map<PageId, Seq<u8>>,
    keys: Seq<Seq<u8>>,
    kids: Seq<Tree>,
    low: Seq<u8>,
    high: Option<Seq<u8>>,
    after: PageId,
    p: PageId,
)
    requires
        row_sound(pages, keys, kids, low, high, after),
        ids_list(kids).contains(p),
    ensures
        pages.dom().contains(p),
{
    let i = lemma_ids_list_kid(kids, p);
    assert(stored(pages, kids[i]));
    lemma_stored_ids(pages, kids[i], p);
}

/// The halves of a branch are sound, side by side.
proof fn lemma_branch_split(
    before: Map<PageId, Seq<u8>>,
    start: Map<PageId, Seq<u8>>,
    pages: Map<PageId, Seq<u8>>,
    t: Tree,
    nk: Seq<Seq<u8>>,
    now: Seq<Tree>,
    low: Seq<u8>,
    high: Option<Seq<u8>>,
    after: PageId,
    mid: int,
    l: Tree,
    r: Tree,
)
    requires
        row_sound(start, nk, now, low, high, after),
        0 < mid < nk.len() - 1,
        level(now[0]) + 1 == level(t),
        first_leaf(now[0]) == first_leaf(t),
        start.dom().contains(t.id()),
        !ids_list(now).contains(t.id()),
        grown(before, start, t, seq![Tree::Branch { id: t.id(), keys: nk, kids: now }]),
        l == (Tree::Branch { id: t.id(), keys: nk.take(mid), kids: now.take(mid + 1) }),
        r == (Tree::Branch { id: r.id(), keys: nk.skip(mid + 1), kids: now.skip(mid + 1) }),
        !start.dom().contains(r.id()),
        forall|p: PageId| #[trigger]
            pages.dom().contains(p) <==> start.dom().contains(p) || p == r.id(),
        forall|p: PageId| #[trigger]
            start.dom().contains(p) && p != t.id() ==> pages[p] == start[p],
        is_branch_page(pages[t.id()], nk.take(mid), roots(now.take(mid + 1))),
        is_branch_page(pages[r.id()], nk.skip(mid + 1), roots(now.skip(mid + 1))),
    ensures
        sound(pages, l, low, Some(nk[mid]), first_leaf(r)),
        sound(pages, r, nk[mid], high, after),
        level(l) == level(t),
        level(r) == level(t),
        first_leaf(l) == first_leaf(t),
        nk[mid].len() <= MAX_KEY_LEN,
        bytes_lt(low, nk[mid]),
        high matches Some(h) ==> bytes_lt(nk[mid], h),
        contents(l) + contents(r) == contents_list(now),
        forall|p: PageId| !(#[trigger] ids(l).contains(p) && ids(r).contains(p)),
        grown(before, pages, t, seq![l, r]),
{
    let left = now.take(mid + 1);
    let right = now.skip(mid + 1);
    let a = ids_list(left);
    let b = ids_list(right);
    assert forall|p: PageId| #[trigger] ids_list(now).contains(p) implies pages.dom().contains(p)
        && pages[p] == start[p] by {
        lemma_row_pages(start, nk, now, low, high, after, p);
    }
    lemma_row_frame(start, pages, nk, now, low, high, after);
    lemma_row_split(pages, nk, now, low, high, after, mid);
    lemma_no_duplicates_parts(a, b);
    assert forall|p: PageId| true implies (#[trigger] ids_list(now).contains(p) <==> a.contains(p)
        || b.contains(p)) by {
        lemma_contains_concat(a, b, p);
    }
    assert(!ids_list(now).contains(r.id())) by {
        if ids_list(now).contains(r.id()) {
            lemma_row_pages(start, nk, now, low, high, after, r.id());
        }
    }
    assert(!a.contains(t.id()) && !b.contains(r.id()));
    lemma_row_is_branch(
        pages,
        t.id(),
        nk.take(mid),
        left,
        low,
        Some(nk[mid]),
        first_leaf(now[mid + 1]),
    );
    lemma_row_is_branch(pages, r.id(), nk.skip(mid + 1), right, nk[mid], high, after);
    assert(right[0] == now[mid + 1]);
    assert(left[0] == now[0]);
    assert(level(now[mid + 1]) == level(now[0]));
    lemma_branch_split_pages(before, start, pages, t, nk, now, mid, l, r);
}

/// The pages of the halves of a branch.
proof fn lemma_branch_split_pages(
    before: Map<PageId, Seq<u8>>,
    start: Map<PageId, Seq<u8>>,
    pages: Map<PageId, Seq<u8>>,
    t: Tree,
    nk: Seq<Seq<u8>>,
    now: Seq<Tree>,
    mid: int,
    l: Tree,
    r: Tree,
)
    requires
        0 <= mid < nk.len(),
        start.dom().contains(t.id()),
        !ids_list(now).contains(t.id()),
        !ids_list(now).contains(r.id()),
        ids_list(now).no_duplicates(),
        ids_list(now) == ids_list(now.take(mid + 1)) + ids_list(now.skip(mid + 1)),
        grown(before, start, t, seq![Tree::Branch { id: t.id(), keys: nk, kids: now }]),
        l == (Tree::Branch { id: t.id(), keys: nk.take(mid), kids: now.take(mid + 1) }),
        r == (Tree::Branch { id: r.id(), keys: nk.skip(mid + 1), kids: now.skip(mid + 1) }),
        !start.dom().contains(r.id()),
        forall|p: PageId| #[trigger]
            pages.dom().contains(p) <==> start.dom().contains(p) || p == r.id(),
        forall|p: PageId| #[trigger]
            start.dom().contains(p) && p != t.id() ==> pages[p] == start[p],
    ensures
        forall|p: PageId| !(#[trigger] ids(l).contains(p) && ids(r).contains(p)),
        grown(before, pages, t, seq![l, r]),
{
    let whole = Tree::Branch { id: t.id(), keys: nk, kids: now };
    lemma_half_ids(whole, l, r, ids_list(now.take(mid + 1)), ids_list(now.skip(mid + 1)));
    lemma_root_in_ids(t);
    lemma_grown_step(before, start, pages, t, seq![whole], seq![l, r], r.id());
}

/// The pages of two halves are those of the whole, and a new one.
proof fn lemma_half_ids(whole: Tree, l: Tree, r: Tree, a: Seq<PageId>, b: Seq<PageId>)
    requires
        whole is Branch,
        l is Branch,
        r is Branch,
        l.id() == whole.id(),
        l.id() != r.id(),
        ids_list(l->kids) == a,
        ids_list(r->kids) == b,
        ids_list(whole->kids) == a + b,
        !(a + b).contains(l.id()),
        !(a + b).contains(r.id()),
        (a + b).no_duplicates(),
    ensures
        forall|p: PageId| !(#[trigger] ids(l).contains(p) && ids(r).contains(p)),
        same_ids_and(seq![whole], seq![l, r], r.id()),
{
    lemma_no_duplicates_parts(a, b);
    let all = a + b;
    assert forall|p: PageId| #[trigger] all.contains(p) <==> a.contains(p) || b.contains(p) by {
        lemma_contains_concat(a, b, p);
    }
    let x = ids(l);
    let y = ids(r);
    let xall = ids(whole);
    lemma_split_pages(l.id(), r.id(), a, b, all, x, y, xall);
    lemma_single_list(whole);
    lemma_single_list(l);
    lemma_single_list(r);
    assert(seq![l, r] =~= seq![l] + seq![r]);
    super::tree::lemma_ids_concat(seq![l], seq![r]);
    let both = ids_list(seq![l, r]);
    assert(both == x + y);
    assert forall|p: PageId| #[trigger] both.contains(p) <==> xall.contains(p) || p == r.id() by {
        lemma_contains_concat(x, y, p);
        assert(x.contains(p) || y.contains(p) <==> xall.contains(p) || p == r.id());
    }
}

/// Whether the trees `v` have the pages of the trees `u`, and page `y`.
spec fn same_ids_and(u: Seq<Tree>, v: Seq<Tree>, y: PageId) -> bool {
    forall|p: PageId| #[trigger] ids_list(v).contains(p) <==> ids_list(u).contains(p) || p == y
}

/// Growing by one more page.
proof fn lemma_grown_step(
    before: Map<PageId, Seq<u8>>,
    start: Map<PageId, Seq<u8>>,
    pages: Map<PageId, Seq<u8>>,
    t: Tree,
    u: Seq<Tree>,
    v: Seq<Tree>,
    y: PageId,
)
    requires
        grown(before, start, t, u),
        same_ids_and(u, v, y),
        !start.dom().contains(y),
        ids(t).contains(t.id()),
        forall|p: PageId| #[trigger] pages.dom().contains(p) <==> start.dom().contains(p) || p == y,
        forall|p: PageId| #[trigger]
            start.dom().contains(p) && p != t.id() ==> pages[p] == start[p],
    ensures
        grown(before, pages, t, v),
{
    assert(!before.dom().contains(y)) by {
        assert(start.dom().contains(y) <==> before.dom().contains(y) || ids_list(u).contains(y));
    }
    assert forall|p: PageId| #[trigger]
        pages.dom().contains(p) <==> before.dom().contains(p) || ids_list(v).contains(p) by {
        assert(start.dom().contains(p) <==> before.dom().contains(p) || ids_list(u).contains(p));
        assert(ids_list(v).contains(p) <==> ids_list(u).contains(p) || p == y);
    }
    assert forall|p: PageId| #[trigger]
        before.dom().contains(p) && !ids(t).contains(p) implies pages[p] == before[p] by {
        assert(start.dom().contains(p));
        assert(p != t.id());
    }
    assert forall|p: PageId| #[trigger] ids_list(v).contains(p) implies ids(t).contains(p)
        || !before.dom().contains(p) by {
        assert(ids_list(v).contains(p) <==> ids_list(u).contains(p) || p == y);
    }
    assert forall|p: PageId| #[trigger] ids(t).contains(p) implies ids_list(v).contains(p) by {
        assert(ids_list(u).contains(p));
        assert(ids_list(v).contains(p) <==> ids_list(u).contains(p) || p == y);
    }
}

/// What the pages of two halves are.
proof fn lemma_split_pages(
    x: PageId,
    y: PageId,
    a: Seq<PageId>,
    b: Seq<PageId>,
    all: Seq<PageId>,
    xa: Seq<PageId>,
    yb: Seq<PageId>,
    xall: Seq<PageId>,
)
    requires
        x != y,
        !all.contains(x),
        !all.contains(y),
        forall|p: PageId| #[trigger] all.contains(p) <==> a.contains(p) || b.contains(p),
        forall|p: PageId| !(#[trigger] a.contains(p) && b.contains(p)),
        xa == seq![x] + a,
        yb == seq![y] + b,
        xall == seq![x] + all,
    ensures
        forall|p: PageId| !(#[trigger] xa.contains(p) && yb.contains(p)),
        forall|p: PageId|
            #![trigger xa.contains(p)]
            #![trigger yb.contains(p)]
            #![trigger xall.contains(p)]
            xa.contains(p) || yb.contains(p) <==> xall.contains(p) || p == y,
{
    assert forall|p: PageId|
        #![trigger xa.contains(p)]
        #![trigger yb.contains(p)]
        #![trigger xall.contains(p)]
        (xa.contains(p) <==> p == x || a.contains(p)) && (yb.contains(p) <==> p == y || b.contains(
            p,
        )) && (xall.contains(p) <==> p == x || all.contains(p)) by {
        lemma_contains_concat(seq![x], a, p);
        lemma_contains_concat(seq![y], b, p);
        lemma_contains_concat(seq![x], all, p);
        assert(seq![x][0] == x);
        assert(seq![y][0] == y);
    }
    assert forall|p: PageId| !(#[trigger] xa.contains(p) && yb.contains(p)) by {
        assert(yb.contains(p) <==> p == y || b.contains(p));
        assert(all.contains(p) <==> a.contains(p) || b.contains(p));
        assert(all.contains(x) <==> a.contains(x) || b.contains(x));
        assert(all.contains(y) <==> a.contains(y) || b.contains(y));
    }
    assert forall|p: PageId|
        #![trigger xa.contains(p)]
        #![trigger yb.contains(p)]
        #![trigger xall.contains(p)]
        xa.contains(p) || yb.contains(p) <==> xall.contains(p) || p == y by {
        assert(all.contains(p) <==> a.contains(p) || b.contains(p));
    }
}

// ---------------------------------------------------------------------
// The whole tree.

/// What a change of the tree at `root` may do to the pages: it keeps the
/// tree's pages, may add new ones, and touches no others.
pub open spec fn tree_grown(
    before: Map<PageId, Seq<u8>>,
    after: Map<PageId, Seq<u8>>,
    root: PageId,
) -> bool {
    &&& forall|p: PageId| #[trigger]
        after.dom().contains(p) <==> before.dom().contains(p) || tree_pages(after, root).contains(p)
    &&& forall|p: PageId| #[trigger]
        before.dom().contains(p) && !tree_pages(before, root).contains(p) ==> after[p] == before[p]
    &&& forall|p: PageId| #[trigger]
        tree_pages(after, root).contains(p) ==> tree_pages(before, root).contains(p)
            || !before.dom().contains(p)
    &&& forall|p: PageId| #[trigger]
        tree_pages(before, root).contains(p) ==> tree_pages(after, root).contains(p)
}

/// A tree whose root is on another page.
spec fn moved(t: Tree, id: PageId) -> Tree {
    match t {
        Tree::Leaf { entries, next, .. } => Tree::Leaf { id, entries, next },
        Tree::Branch { keys, kids, .. } => Tree::Branch { id, keys, kids },
    }
}

/// A tree whose root was copied to a page of its own is sound there.
proof fn lemma_moved(
    before: Map<PageId, Seq<u8>>,
    pages: Map<PageId, Seq<u8>>,
    t: Tree,
    id: PageId,
    low: Seq<u8>,
    high: Option<Seq<u8>>,
    after: PageId,
)
    requires
        sound(before, t, low, high, after),
        !before.dom().contains(id),
        pages.dom().contains(id),
        pages[id] == before[t.id()],
        forall|p: PageId| #[trigger]
            ids(t).contains(p) && p != t.id() ==> pages.dom().contains(p) && pages[p] == before[p],
    ensures
        sound(pages, moved(t, id), low, high, after),
        contents(moved(t, id)) == contents(t),
        level(moved(t, id)) == level(t),
        forall|p: PageId| #[trigger]
            ids(moved(t, id)).contains(p) <==> p == id || (ids(t).contains(p) && p != t.id()),
{
    let m = moved(t, id);
    match t {
        Tree::Leaf { .. } => {
            assert(ids(m) =~= seq![id]);
            assert(ids(t) =~= seq![t.id()]);
            assert(seq![id][0] == id);
        },
        Tree::Branch { keys, kids, .. } => {
            lemma_branch_is_row(before, t, low, high, after);
            assert forall|p: PageId| #[trigger] ids_list(kids).contains(p) implies pages.dom()
                .contains(p) && pages[p] == before[p] by {
                lemma_contains_concat(seq![t.id()], ids_list(kids), p);
            }
            lemma_row_frame(before, pages, keys, kids, low, high, after);
            assert(!ids_list(kids).contains(id)) by {
                if ids_list(kids).contains(id) {
                    lemma_row_pages(before, keys, kids, low, high, after, id);
                }
            }
            lemma_row_is_branch(pages, id, keys, kids, low, high, after);
            assert forall|p: PageId| #[trigger]
                ids(m).contains(p) <==> p == id || (ids(t).contains(p) && p != t.id()) by {
                lemma_contains_concat(seq![t.id()], ids_list(kids), p);
                lemma_contains_concat(seq![id], ids_list(kids), p);
                assert(seq![id][0] == id);
                assert(seq![t.id()][0] == t.id());
            }
        },
    }
}

/// The root page's number is permanent, so a root split can't just allocate
/// a fresh top page the way every other split does. Instead the root's
/// current content (already rewritten as the left half by the split) is
/// relocated to a fresh page, and the root itself is overwritten with a new
/// branch pointing at that page and at `new_right`. The tree grows one
/// level taller; every existing pointer to the root stays valid.
fn grow_new_root<S: PageStore>(
    store: &mut S,
    root: PageId,
    separator: &[u8],
    new_right: PageId,
    Ghost(before): Ghost<Map<PageId, Seq<u8>>>,
    Ghost(t): Ghost<Tree>,
    Ghost(l): Ghost<Tree>,
    Ghost(r): Ghost<Tree>,
    Ghost(good): Ghost<bool>,
) -> (result: IoResult<()>)
    requires
        old(store).wf(),
        good ==> {
            let pages = old(store).pages();
            &&& sound(pages, l, seq![], Some(separator@), first_leaf(r))
            &&& sound(pages, r, separator@, None, 0)
            &&& l.id() == root
            &&& r.id() == new_right
            &&& level(l) == level(r)
            &&& separator@.len() <= MAX_KEY_LEN
            &&& bytes_lt(seq![], separator@)
            &&& (forall|p: PageId| !(#[trigger] ids(l).contains(p) && ids(r).contains(p)))
            &&& is_tree(before, root, t)
            &&& grown(before, pages, t, seq![l, r])
        },
    ensures
        final(store).wf(),
        final(store).reliable() == old(store).reliable(),
        old(store).packed() && result is Ok ==> final(store).packed(),
        good ==> match result {
            Ok(()) => {
                let pages = final(store).pages();
                &&& has_tree(pages, root)
                &&& tree_entries(pages, root) == Some(contents(l) + contents(r))
                &&& leaf_runs(pages, root) == runs(l) + runs(r)
                &&& tree_grown(before, pages, root)
            },
            Err(_) => !old(store).reliable() || final(store).full(),
        },
{
    let ghost start = store.pages();
    let left_id: PageId = match store.allocate_page() {
        Ok(id) => id,
        Err(e) => return Err(e),
    };
    proof {
        if good {
            lemma_root_in_ids(l);
            lemma_stored_ids(start, l, root);
        }
    }
    let content = match store.read_page(root) {
        Ok(content) => content,
        Err(e) => return Err(e),
    };
    proof {
        store.lemma_pages();
    }
    match store.write_page(left_id, content.as_slice()) {
        Ok(()) => {},
        Err(e) => return Err(e),
    }
    let mut entries: Vec<(Vec<u8>, PageId)> = Vec::new();
    entries.push((slice_to_vec(separator), left_id));
    proof {
        let sizes = branch_sizes(branch_keys(entries@));
        assert(sizes.drop_last() =~= Seq::<nat>::empty());
        assert(total(Seq::<nat>::empty()) == 0);
        assert(total(sizes) == total(sizes.drop_last()) + sizes.last());
    }
    let new_root = match build_branch_page(&entries, new_right) {
        Some(page) => page,
        None => return Err(corrupt("an index key is longer than a page")),
    };
    proof {
        lemma_all_live(branch_cells(branch_keys(entries@), branch_kids(entries@, new_right)));
    }
    let bytes = new_root.into_bytes();
    match store.write_page(root, bytes.as_slice()) {
        Ok(()) => {},
        Err(e) => return Err(e),
    }
    proof {
        if good {
            let pages = store.pages();
            let m = moved(l, left_id);
            assert(branch_keys(entries@) =~= seq![separator@]);
            assert(branch_kids(entries@, new_right) =~= roots(seq![m, r]));
            lemma_new_root(before, start, pages, t, l, r, m, root, left_id, separator@);
        }
    }
    Ok(())
}

/// The tree under a new root.
proof fn lemma_new_root(
    before: Map<PageId, Seq<u8>>,
    start: Map<PageId, Seq<u8>>,
    pages: Map<PageId, Seq<u8>>,
    t: Tree,
    l: Tree,
    r: Tree,
    m: Tree,
    root: PageId,
    left_id: PageId,
    separator: Seq<u8>,
)
    requires
        sound(start, l, seq![], Some(separator), first_leaf(r)),
        sound(start, r, separator, None, 0),
        l.id() == root,
        m == moved(l, left_id),
        level(l) == level(r),
        separator.len() <= MAX_KEY_LEN,
        bytes_lt(seq![], separator),
        forall|p: PageId| !(#[trigger] ids(l).contains(p) && ids(r).contains(p)),
        is_tree(before, root, t),
        grown(before, start, t, seq![l, r]),
        !start.dom().contains(left_id),
        forall|p: PageId| #[trigger]
            pages.dom().contains(p) <==> start.dom().contains(p) || p == left_id,
        forall|p: PageId| #[trigger]
            start.dom().contains(p) && p != root ==> pages[p] == start[p],
        pages[left_id] == start[root],
        is_branch_page(pages[root], seq![separator], roots(seq![m, r])),
    ensures
        has_tree(pages, root),
        tree_entries(pages, root) == Some(contents(l) + contents(r)),
        leaf_runs(pages, root) == runs(l) + runs(r),
        tree_grown(before, pages, root),
{
    lemma_root_in_ids(l);
    lemma_stored_ids(start, l, root);
    assert forall|p: PageId| #[trigger] ids(l).contains(p) && p != l.id() implies pages.dom()
        .contains(p) && pages[p] == start[p] by {
        lemma_stored_ids(start, l, p);
    }
    lemma_moved(start, pages, l, left_id, seq![], Some(separator), first_leaf(r));
    assert(!ids(r).contains(root)) by {
        assert(ids(l).contains(root));
    }
    assert forall|p: PageId| #[trigger] ids(r).contains(p) implies pages.dom().contains(p)
        && pages[p] == start[p] by {
        lemma_stored_ids(start, r, p);
    }
    lemma_stored_frame(start, pages, r);
    assert forall|p: PageId| !(#[trigger] ids(m).contains(p) && ids(r).contains(p)) by {
        if ids(m).contains(p) && ids(r).contains(p) {
            lemma_stored_ids(start, r, p);
            assert(ids(l).contains(p));
        }
    }
    lemma_row_of_two(pages, m, r, separator, seq![], None, 0);
    let kids = seq![m, r];
    assert(kids[0] == m && kids[1] == r);
    let keys = seq![separator];
    let both = ids_list(kids);
    assert forall|p: PageId| #[trigger] both.contains(p) <==> ids(m).contains(p) || ids(
        r,
    ).contains(p) by {
        lemma_contains_concat(ids(m), ids(r), p);
    }
    assert(!both.contains(root));
    lemma_row_is_branch(pages, root, keys, kids, seq![], None, 0);
    let whole = Tree::Branch { id: root, keys, kids };
    assert(is_tree(pages, root, whole));
    lemma_tree_at(pages, root, whole);
    lemma_tree_at(before, root, t);
    lemma_single_list(l);
    lemma_single_list(r);
    assert(seq![l, r] =~= seq![l] + seq![r]);
    super::tree::lemma_ids_concat(seq![l], seq![r]);
    let old_both = ids_list(seq![l, r]);
    assert(old_both == ids(l) + ids(r));
    assert forall|p: PageId| #[trigger] ids(whole).contains(p) <==> old_both.contains(p) || p
        == left_id by {
        lemma_contains_concat(ids(l), ids(r), p);
        lemma_contains_concat(seq![root], both, p);
        assert(seq![root][0] == root);
        assert(both.contains(p) <==> ids(m).contains(p) || ids(r).contains(p));
        assert(ids(m).contains(p) <==> p == left_id || (ids(l).contains(p) && p != root));
    }
    lemma_runs_single(m);
    lemma_runs_single(r);
    assert(kids =~= seq![m] + seq![r]);
    lemma_runs_concat(seq![m], seq![r]);
    assert(runs(m) == runs(l));
    let u = seq![l, r];
    let v = seq![whole];
    lemma_single_list(whole);
    assert(same_ids_and(u, v, left_id));
    lemma_grown_step(before, start, pages, t, u, v, left_id);
    lemma_grown_tree(before, pages, root, t, whole);
}

/// Growing as a tree.
proof fn lemma_grown_tree(
    before: Map<PageId, Seq<u8>>,
    pages: Map<PageId, Seq<u8>>,
    root: PageId,
    t: Tree,
    now: Tree,
)
    requires
        is_tree(before, root, t),
        is_tree(pages, root, now),
        grown(before, pages, t, seq![now]),
    ensures
        tree_grown(before, pages, root),
{
    lemma_tree_at(before, root, t);
    lemma_tree_at(pages, root, now);
    lemma_single_list(now);
    let v = seq![now];
    assert(ids_list(v) == ids(now));
}

/// Which kid a leaf is under, and which of its leaves it is.
proof fn lemma_leaf_kid(kids: Seq<Tree>, at: int) -> (r: (int, int))
    requires
        0 <= at < leaves_list(kids).len(),
    ensures
        0 <= r.0 < kids.len(),
        0 <= r.1 < leaves(kids[r.0]).len(),
        at == leaves_list(kids.take(r.0)).len() + r.1,
        leaves_list(kids)[at] == leaves(kids[r.0])[r.1],
    decreases kids.len(),
{
    let first = leaves(kids[0]);
    if at < first.len() {
        assert(kids.take(0).len() == 0);
        assert(leaves_list(kids.take(0)) =~= Seq::<Tree>::empty());
        (0, at)
    } else {
        let rest = kids.skip(1);
        let (k, j) = lemma_leaf_kid(rest, at - first.len());
        assert(rest[k] == kids[k + 1]);
        let front = kids.take(k + 1);
        assert(front.skip(1) =~= rest.take(k));
        assert(front[0] == kids[0]);
        assert(leaves_list(front) == leaves(front[0]) + leaves_list(front.skip(1)));
        (k + 1, j)
    }
}

/// Rewriting one leaf with fewer entries keeps a tree sound.
proof fn lemma_replace_leaf(
    before: Map<PageId, Seq<u8>>,
    pages: Map<PageId, Seq<u8>>,
    t: Tree,
    low: Seq<u8>,
    high: Option<Seq<u8>>,
    after: PageId,
    at: int,
    new_leaf: Tree,
) -> (now: Tree)
    requires
        sound(before, t, low, high, after),
        0 <= at < leaves(t).len(),
        new_leaf is Leaf,
        leaves(t)[at] is Leaf,
        new_leaf.id() == leaves(t)[at].id(),
        new_leaf->next == leaves(t)[at]->next,
        forall|l: Seq<u8>, h: Option<Seq<u8>>| #[trigger]
            in_order(leaves(t)[at], l, h) ==> in_order(new_leaf, l, h),
        stored(pages, new_leaf),
        pages.dom() == before.dom(),
        forall|p: PageId| #[trigger]
            before.dom().contains(p) && p != new_leaf.id() ==> pages[p] == before[p],
    ensures
        sound(pages, now, low, high, after),
        now.id() == t.id(),
        level(now) == level(t),
        first_leaf(now) == first_leaf(t),
        leaves(now) == leaves(t).update(at, new_leaf),
        ids(now) == ids(t),
    decreases t,
{
    match t {
        Tree::Leaf { .. } => {
            assert(leaves(t)[at] == t);
            assert(leaves(new_leaf) =~= leaves(t).update(at, new_leaf));
            assert(in_order(t, low, high));
            new_leaf
        },
        Tree::Branch { id, keys, kids } => {
            let (k, j) = lemma_leaf_kid(kids, at);
            lemma_branch_is_row(before, t, low, high, after);
            super::tree::lemma_kids_apart(kids, k, k);
            assert(linked(kids[k], after_kid(kids, k, after)));
            let kid = lemma_replace_leaf(
                before,
                pages,
                kids[k],
                low_bound(keys, low, k),
                high_bound(keys, high, k),
                after_kid(kids, k, after),
                j,
                new_leaf,
            );
            lemma_leaf_ids(kids[k], j);
            lemma_rewritten_grown(before, pages, kids[k], kid, new_leaf.id());
            lemma_replace_kid(before, pages, t, low, high, after, k, kid);
            lemma_replace_leaves(kids, k, kid, at, j, new_leaf);
            Tree::Branch { id, keys, kids: kids.update(k, kid) }
        },
    }
}

/// Rewriting a page of a tree adds none.
proof fn lemma_rewritten_grown(
    before: Map<PageId, Seq<u8>>,
    pages: Map<PageId, Seq<u8>>,
    t: Tree,
    now: Tree,
    changed: PageId,
)
    requires
        stored(before, t),
        ids(now) == ids(t),
        ids(t).contains(changed),
        pages.dom() == before.dom(),
        forall|p: PageId| #[trigger]
            before.dom().contains(p) && p != changed ==> pages[p] == before[p],
    ensures
        grown(before, pages, t, seq![now]),
{
    lemma_single_list(now);
    let more = seq![now];
    assert(ids_list(more) == ids(t));
    assert forall|p: PageId| #[trigger]
        pages.dom().contains(p) <==> before.dom().contains(p) || ids_list(more).contains(p) by {
        if ids_list(more).contains(p) {
            lemma_stored_ids(before, t, p);
        }
    }
}

/// A branch with one kid replaced by another like it.
proof fn lemma_replace_kid(
    before: Map<PageId, Seq<u8>>,
    pages: Map<PageId, Seq<u8>>,
    t: Tree,
    low: Seq<u8>,
    high: Option<Seq<u8>>,
    after: PageId,
    k: int,
    kid: Tree,
)
    requires
        t is Branch,
        sound(before, t, low, high, after),
        0 <= k < t->kids.len(),
        sound(
            pages,
            kid,
            low_bound(t->keys, low, k),
            high_bound(t->keys, high, k),
            after_kid(t->kids, k, after),
        ),
        kid.id() == t->kids[k].id(),
        level(kid) == level(t->kids[k]),
        first_leaf(kid) == first_leaf(t->kids[k]),
        grown(before, pages, t->kids[k], seq![kid]),
    ensures
        ({
            let now = Tree::Branch { id: t.id(), keys: t->keys, kids: t->kids.update(k, kid) };
            &&& sound(pages, now, low, high, after)
            &&& level(now) == level(t)
            &&& first_leaf(now) == first_leaf(t)
        }),
{
    let keys = t->keys;
    let kids = t->kids;
    let more = seq![kid];
    let none: Seq<Seq<u8>> = seq![];
    lemma_branch_is_row(before, t, low, high, after);
    lemma_row_of_one(
        pages,
        kid,
        low_bound(keys, low, k),
        high_bound(keys, high, k),
        after_kid(kids, k, after),
    );
    assert(more[0] == kid);
    lemma_graft(before, pages, keys, kids, low, high, after, k, none, more);
    assert(keys_with(keys, k, none) =~= keys);
    let now = kids_with(kids, k, more);
    assert(now =~= kids.update(k, kid));
    assert(roots(now) =~= roots(kids)) by {
        assert forall|i: int| 0 <= i < kids.len() implies roots(now)[i] == roots(kids)[i] by {
            assert(roots(now)[i] == now[i].id());
            assert(roots(kids)[i] == kids[i].id());
        }
    }
    lemma_own_page(before, pages, t, now, more, k);
    lemma_row_is_branch(pages, t.id(), keys, now, low, high, after);
}

/// The leaves and pages of a branch with one leaf replaced.
proof fn lemma_replace_leaves(
    kids: Seq<Tree>,
    k: int,
    kid: Tree,
    at: int,
    j: int,
    new_leaf: Tree,
)
    requires
        0 <= k < kids.len(),
        0 <= j < leaves(kids[k]).len(),
        at == leaves_list(kids.take(k)).len() + j,
        leaves(kid) == leaves(kids[k]).update(j, new_leaf),
        ids(kid) == ids(kids[k]),
    ensures
        leaves_list(kids.update(k, kid)) == leaves_list(kids).update(at, new_leaf),
        ids_list(kids.update(k, kid)) == ids_list(kids),
{
    let now = kids.update(k, kid);
    lemma_list_around(kids, k);
    lemma_list_around(now, k);
    assert(now.take(k) =~= kids.take(k));
    assert(now.skip(k + 1) =~= kids.skip(k + 1));
    assert(now[k] == kid);
    assert(leaves_list(now) =~= leaves_list(kids).update(at, new_leaf));
}

/// A leaf without one of its entries is in order where the leaf was.
proof fn lemma_shorter_leaf(
    id: PageId,
    next: PageId,
    entries: Seq<Entry>,
    i: int,
    low: Seq<u8>,
    high: Option<Seq<u8>>,
)
    requires
        0 <= i < entries.len(),
        in_order((Tree::Leaf { id, entries, next }), low, high),
    ensures
        in_order((Tree::Leaf { id, entries: entries.remove(i), next }), low, high),
{
    let now = entries.remove(i);
    assert forall|k: int| 0 <= k < now.len() implies !bytes_lt((#[trigger] now[k]).0, low) && (
    high matches Some(h) ==> bytes_lt(now[k].0, h)) && now[k].0.len() <= MAX_KEY_LEN by {
        if k < i {
            assert(now[k] == entries[k]);
        } else {
            assert(now[k] == entries[k + 1]);
        }
    }
    assert forall|k: int, j: int| 0 <= k < j < now.len() implies bytes_lt(
        (#[trigger] now[k]).0,
        (#[trigger] now[j]).0,
    ) by {
        let a = if k < i {
            k
        } else {
            k + 1
        };
        let b = if j < i {
            j
        } else {
            j + 1
        };
        assert(now[k] == entries[a] && now[j] == entries[b]);
    }
}

impl BTreeIndex {
    pub fn new(root: PageId) -> (index: BTreeIndex)
        ensures
            index.root == root,
    {
        BTreeIndex { root }
    }

    /// Every page of the tree, root first. A page reached twice is an
    /// error: a tree is a tree.
    pub fn pages<S: PageStore>(&self, store: &S) -> (r: IoResult<Vec<PageId>>)
        requires
            store.wf(),
        ensures
            has_tree(store.pages(), self.root) ==> match r {
                Ok(pages) => pages@ == tree_pages(store.pages(), self.root),
                Err(_) => !store.reliable(),
            },
            match r {
                Ok(pages) => reached(store.pages(), self.root) == Some(pages@),
                Err(e) => !store.reliable() || (reached(store.pages(), self.root) is None && e.kind
                    == ErrorKind::InvalidData),
            },
            r matches Ok(pages) ==> pages@.no_duplicates() && forall|i: int|
                0 <= i < pages@.len() ==> store.pages().dom().contains(#[trigger] pages@[i]),
    {
        let ghost root = self.root;
        let ghost held = store.pages();
        let mut pending: Vec<PageId> = Vec::new();
        let mut pages: Vec<PageId> = Vec::new();
        pending.push(self.root);
        proof {
            if has_tree(held, root) {
                lemma_reached_tree(held, root);
            }
            assert(pending@.reverse() =~= seq![root]);
        }
        loop
            invariant
                store.wf(),
                held == store.pages(),
                root == self.root,
                has_tree(held, root) ==> reached(held, root) == Some(tree_pages(held, root)),
                reached(held, root) == reach(
                    held,
                    pending@.reverse(),
                    pages@,
                    (page_numbers() - pages@.len()) as nat,
                ),
                pages@.no_duplicates(),
                forall|k: int| 0 <= k < pages@.len() ==> held.dom().contains(#[trigger] pages@[k]),
            decreases usize::MAX - pages.len(),
        {
            let ghost waiting = pending@;
            let page_id: PageId = match pending.pop() {
                Some(page_id) => page_id,
                None => return Ok(pages),
            };
            let ghost went = pages@;
            assert(went.len() <= usize::MAX);
            proof {
                assert(waiting.reverse()[0] == page_id);
                assert(waiting.reverse().skip(1) =~= pending@.reverse());
            }
            if listed(&pages, page_id) {
                return Err(reached_twice(page_id));
            }
            let bytes = match store.read_page(page_id) {
                Ok(bytes) => bytes,
                Err(e) => return Err(e),
            };
            let page = match SlottedPage::from_bytes(bytes) {
                Ok(page) => page,
                Err(e) => return Err(e),
            };
            assert(page_at(held, page_id) == Some(page@));
            match page.page_type() {
                PageType::IndexLeaf => {
                    let ghost none: Seq<PageId> = seq![];
                    assert(none + pending@.reverse() =~= pending@.reverse());
                    assert(kids_at(held, page_id) == Some(none));
                },
                PageType::IndexBranch => {
                    let entries = match read_branch(&page) {
                        Ok(entries) => entries,
                        Err(e) => {
                            assert(forall|keys: Seq<Seq<u8>>, kids: Seq<PageId>|
                                !#[trigger] is_branch(page@, keys, kids));
                            return Err(e);
                        },
                    };
                    let rightmost: PageId = page.next_page();
                    proof {
                        lemma_branch_of(
                            page@,
                            branch_keys(entries@),
                            branch_kids(entries@, rightmost),
                        );
                    }
                    push_kids(&mut pending, &entries, rightmost);
                },
                _ => return Err(wrong_page_type(page_id)),
            }
            pages.push(page_id);
            assert(pages@ =~= went.push(page_id));
        }
    }

    /// Frees every page of the tree, root included, for dropping an index.
    pub fn free_all<S: PageStore>(&self, store: &mut S) -> (r: IoResult<()>)
        requires
            old(store).wf(),
        ensures
            final(store).wf(),
            final(store).reliable() == old(store).reliable(),
            has_tree(old(store).pages(), self.root) ==> match r {
                Ok(()) => final(store).pages() == old(store).pages().remove_keys(
                    tree_pages(old(store).pages(), self.root).to_set(),
                ),
                Err(_) => !old(store).reliable(),
            },
            match reached(old(store).pages(), self.root) {
                Some(ids) => match r {
                    Ok(()) => final(store).pages() == old(store).pages().remove_keys(ids.to_set()),
                    Err(_) => !old(store).reliable(),
                },
                None => r matches Err(e) && final(store).pages() == old(store).pages() && (
                !old(store).reliable() || e.kind == ErrorKind::InvalidData),
            },
    {
        // Only once the whole tree was readable: freeing overwrites pages.
        let pages = match self.pages(store) {
            Ok(pages) => pages,
            Err(e) => return Err(e),
        };
        free_pages(store, &pages)
    }
}

/// Frees pages.
pub fn free_pages<S: PageStore>(store: &mut S, pages: &Vec<PageId>) -> (r: IoResult<()>)
    requires
        old(store).wf(),
    ensures
        final(store).wf(),
        final(store).reliable() == old(store).reliable(),
        pages@.no_duplicates() && (forall|i: int|
            0 <= i < pages@.len() ==> old(store).pages().dom().contains(#[trigger] pages@[i]))
            ==> match r {
            Ok(()) => final(store).pages() == old(store).pages().remove_keys(pages@.to_set()),
            Err(_) => !old(store).reliable(),
        },
{
    let ghost before = store.pages();
    let ghost good = pages@.no_duplicates() && (forall|i: int|
        0 <= i < pages@.len() ==> before.dom().contains(#[trigger] pages@[i]));
    let n: usize = pages.len();
    assert(before.remove_keys(pages@.take(0).to_set()) =~= before);
    for i in 0..n
        invariant
            n == pages@.len(),
            store.wf(),
            store.reliable() == old(store).reliable(),
            before == old(store).pages(),
            good == (pages@.no_duplicates() && (forall|i: int|
                0 <= i < pages@.len() ==> before.dom().contains(#[trigger] pages@[i]))),
            good ==> store.pages() == before.remove_keys(pages@.take(i as int).to_set()),
    {
        let ghost gone = pages@.take(i as int);
        let ghost page = pages@[i as int];
        proof {
            if good {
                assert(before.dom().contains(pages@[i as int]));
                assert(!gone.to_set().contains(page)) by {
                    if gone.contains(page) {
                        let k = choose|k: int| 0 <= k < gone.len() && gone[k] == page;
                        assert(pages@[k] == pages@[i as int]);
                    }
                }
            }
        }
        match store.free_page(pages[i]) {
            Ok(()) => {},
            Err(e) => return Err(e),
        }
        proof {
            if good {
                let next = pages@.take(i + 1);
                assert(next =~= gone + seq![page]);
                assert(next.to_set() =~= gone.to_set().insert(page)) by {
                    assert forall|p: PageId| next.to_set().contains(p) <==> gone.to_set().insert(
                        page,
                    ).contains(p) by {
                        lemma_contains_concat(gone, seq![page], p);
                        assert(seq![page][0] == page);
                    }
                }
                assert(store.pages() =~= before.remove_keys(next.to_set()));
            }
        }
    }
    assert(pages@.take(n as int) =~= pages@);
    Ok(())
}

/// Puts the kids of a branch on a stack, the first on top.
fn push_kids(pending: &mut Vec<PageId>, entries: &Vec<(Vec<u8>, PageId)>, rightmost: PageId)
    ensures
        final(pending)@.reverse() == branch_kids(entries@, rightmost) + old(pending)@.reverse(),
{
    let ghost kids = branch_kids(entries@, rightmost);
    let ghost below = pending@.reverse();
    let mut left: usize = entries.len();
    pending.push(rightmost);
    assert(pending@.reverse() =~= kids.skip(left as int) + below);
    while left > 0
        invariant
            left <= entries@.len(),
            kids == branch_kids(entries@, rightmost),
            pending@.reverse() == kids.skip(left as int) + below,
        decreases left,
    {
        let ghost so_far = pending@;
        left = left - 1;
        pending.push(entries[left].1);
        proof {
            assert(kids[left as int] == entries@[left as int].1);
            assert(pending@.reverse() =~= seq![kids[left as int]] + so_far.reverse());
            assert(kids.skip(left as int) =~= seq![kids[left as int]] + kids.skip(left + 1));
            assert(pending@.reverse() =~= kids.skip(left as int) + below);
        }
    }
    assert(kids.skip(0) =~= kids);
}

/// An error about a page that is reached a second time.
fn reached_twice(id: PageId) -> (e: IoError)
    ensures
        e.kind == ErrorKind::InvalidData,
{
    let number = decimal_text(id);
    corrupt(join(&["index page ", number.as_str(), " is reached twice"]).as_str())
}

fn key_too_long(len: usize) -> (e: IoError)
    ensures
        e.kind == ErrorKind::InvalidInput,
{
    let found = decimal_text(len as u64);
    let limit = decimal_text(MAX_KEY_LEN as u64);
    let message = join(
        &["index key is ", found.as_str(), " bytes, longer than ", limit.as_str()],
    );
    IoError::new(ErrorKind::InvalidInput, message)
}

impl Index for BTreeIndex {
    open spec fn entries(&self, pages: Map<PageId, Seq<u8>>) -> Option<Seq<Entry>> {
        tree_entries(pages, self.root)
    }

    /// Makes `key` stand for `loc`. Fails if the key is too long; otherwise,
    /// on a sound tree, only if the medium does or no page is left.
    fn insert<S: PageStore>(&mut self, store: &mut S, key: &[u8], loc: RecordLocation) -> (r:
        IoResult<()>)
        ensures
            *final(self) == *old(self),
            final(store).reliable() == old(store).reliable(),
            old(store).packed() && r is Ok ==> final(store).packed(),
            key@.len() > MAX_KEY_LEN ==> *final(store) == *old(store) && (r matches Err(e)
                && e.kind == ErrorKind::InvalidInput),
            key@.len() <= MAX_KEY_LEN && has_tree(old(store).pages(), old(self).root) ==> match r {
                Ok(()) => has_tree(final(store).pages(), old(self).root) && tree_grown(
                    old(store).pages(),
                    final(store).pages(),
                    old(self).root,
                ),
                Err(_) => !old(store).reliable() || final(store).full(),
            },
            key@.len() <= MAX_KEY_LEN && has_tree(old(store).pages(), old(self).root) && r is Ok
                ==> edge_kept(
                tree_at(old(store).pages(), old(self).root),
                (key@, loc),
                0,
                leaf_runs(final(store).pages(), old(self).root),
            ),
    {
        let ghost before = store.pages();
        let root: PageId = self.root;
        let ghost t = tree_at(before, root);
        let ghost good = has_tree(before, root);
        if key.len() > MAX_KEY_LEN {
            return Err(key_too_long(key.len()));
        }
        proof {
            if good {
                trees_are_flat(t);
                lemma_tree_at(before, root, t);
                assert(!bytes_lt(key@, seq![]));
            }
        }
        let outcome = match insert_into(
            store,
            root,
            key,
            loc,
            MAX_LEVELS,
            Ghost(t),
            Ghost(Seq::empty()),
            Ghost(None),
            Ghost(0),
        ) {
            Ok(outcome) => outcome,
            Err(e) => return Err(e),
        };
        match outcome {
            InsertOutcome::Done(now) => {
                proof {
                    if good {
                        lemma_tree_at(store.pages(), root, now@);
                        lemma_grown_tree(before, store.pages(), root, t, now@);
                    }
                }
                Ok(())
            },
            InsertOutcome::Split { separator, new_right, trees } => grow_new_root(
                store,
                root,
                separator.as_slice(),
                new_right,
                Ghost(before),
                Ghost(t),
                Ghost(trees@.0),
                Ghost(trees@.1),
                Ghost(good),
            ),
        }
    }

    /// Takes `key` out, if it is there. On a sound tree it fails only if
    /// the medium does.
    fn remove<S: PageStore>(&mut self, store: &mut S, key: &[u8]) -> (r: IoResult<()>)
        ensures
            *final(self) == *old(self),
            final(store).reliable() == old(store).reliable(),
            old(store).packed() && r is Ok ==> final(store).packed(),
            has_tree(old(store).pages(), old(self).root) ==> match r {
                Ok(()) => has_tree(final(store).pages(), old(self).root) && tree_grown(
                    old(store).pages(),
                    final(store).pages(),
                    old(self).root,
                ) && final(store).pages().dom() == old(store).pages().dom(),
                Err(_) => !old(store).reliable(),
            },
    {
        let ghost before = store.pages();
        let root: PageId = self.root;
        let ghost t = tree_at(before, root);
        let ghost good = has_tree(before, root);
        proof {
            if good {
                lemma_tree_at(before, root, t);
            }
        }
        let (page_id, mut page, at) = match find_leaf(store, root, key, Ghost(t)) {
            Ok(found) => found,
            Err(e) => return Err(e),
        };
        let ghost leaf = leaves(t)[at@];
        proof {
            if good {
                lemma_leaf_decides(before, root, t, at@, key@);
            }
        }
        let entries = match read_leaf(&page) {
            Ok(entries) => entries,
            Err(e) => {
                proof {
                    if good {
                        assert(live(page@.slots) == leaf_cells(leaf->entries));
                    }
                }
                return Err(e);
            },
        };
        let ghost models = entry_models(entries@);
        proof {
            if good {
                lemma_leaf_cells_injective(models, leaf->entries);
            }
        }
        let found: usize = match find_entry(&entries, key) {
            Some(i) => i,
            None => {
                proof {
                    if good {
                        let none: Seq<Tree> = seq![t];
                        lemma_single_list(t);
                        assert(removed(contents(t), key@) =~= contents(t));
                        lemma_unchanged_grown(before, root, t);
                    }
                }
                return Ok(());
            },
        };
        let slot: u16 = {
            let cells = page.iter_cells();
            assert(cells@.len() == models.len());
            assert(cells@[found as int].0 < page@.slots.len());
            assert(live(page@.slots.take(cells@[found as int].0 as int)).len() == found);
            cells[found].0
        };
        let ghost slots = page@.slots;
        page.delete_cell(slot);
        proof {
            lemma_live_delete(slots, slot as int);
            assert(live(page@.slots) == leaf_cells(models).remove(found as int));
            assert(leaf_cells(models).remove(found as int) =~= leaf_cells(
                models.remove(found as int),
            ));
        }
        let bytes = page.into_bytes();
        match store.write_page(page_id, bytes.as_slice()) {
            Ok(()) => {},
            Err(e) => return Err(e),
        }
        proof {
            if good {
                let pages = store.pages();
                let shorter = models.remove(found as int);
                let new_leaf = Tree::Leaf { id: page_id, entries: shorter, next: leaf->next };
                assert(stored(pages, new_leaf));
                assert forall|l: Seq<u8>, h: Option<Seq<u8>>| #[trigger]
                    in_order(leaf, l, h) implies in_order(new_leaf, l, h) by {
                    lemma_shorter_leaf(page_id, leaf->next, models, found as int, l, h);
                }
                assert(pages.dom() =~= before.dom());
                let now = lemma_replace_leaf(
                    before,
                    pages,
                    t,
                    seq![],
                    None,
                    0,
                    at@,
                    new_leaf,
                );
                lemma_removed_leaf(before, pages, root, t, now, at@, new_leaf, key@);
            }
        }
        Ok(())
    }

    fn lookup<S: PageStore>(&self, store: &S, key: &[u8]) -> (r: IoResult<Option<RecordLocation>>)
        ensures
            has_tree(store.pages(), self.root) ==> (r is Err ==> !store.reliable()),
    {
        let ghost pages = store.pages();
        let ghost t = tree_at(pages, self.root);
        let ghost good = has_tree(pages, self.root);
        let (page_id, page, at) = match find_leaf(store, self.root, key, Ghost(t)) {
            Ok(found) => found,
            Err(e) => return Err(e),
        };
        let ghost leaf = leaves(t)[at@];
        proof {
            if good {
                lemma_leaf_decides(pages, self.root, t, at@, key@);
            }
        }
        let entries = match read_leaf(&page) {
            Ok(entries) => entries,
            Err(e) => {
                proof {
                    if good {
                        assert(live(page@.slots) == leaf_cells(leaf->entries));
                    }
                }
                return Err(e);
            },
        };
        let ghost models = entry_models(entries@);
        proof {
            if good {
                lemma_leaf_cells_injective(models, leaf->entries);
            }
        }
        match find_entry(&entries, key) {
            Some(i) => {
                assert(models[i as int] == (entries@[i as int].0@, entries@[i as int].1));
                Ok(Some(entries[i].1))
            },
            None => Ok(None),
        }
    }

    /// Descends to the leaf where the range's start would be, then walks
    /// the leaf chain until a key reaches its end.
    fn range<S: PageStore>(&self, store: &S, range: &KeyRange) -> (r: IoResult<
        Vec<(Vec<u8>, RecordLocation)>,
    >)
        ensures
            has_tree(store.pages(), self.root) ==> (r is Err ==> !store.reliable()),
    {
        let ghost t = tree_at(store.pages(), self.root);
        walk_range(store, self.root, range, Ghost(t))
    }

    fn scan<S: PageStore>(&self, store: &S) -> (r: IoResult<Vec<(Vec<u8>, RecordLocation)>>)
        ensures
            has_tree(store.pages(), self.root) ==> (r is Err ==> !store.reliable()),
            match r {
                Ok(found) => scanned(store.pages(), self.root) == Some(entry_models(found@)),
                Err(e) => !store.reliable() || (scanned(store.pages(), self.root) is None && e.kind
                    == ErrorKind::InvalidData),
            },
    {
        let ghost t = tree_at(store.pages(), self.root);
        walk_all(store, self.root, Ghost(t))
    }
}

/// Nothing changed.
proof fn lemma_unchanged_grown(pages: Map<PageId, Seq<u8>>, root: PageId, t: Tree)
    requires
        is_tree(pages, root, t),
    ensures
        tree_grown(pages, pages, root),
{
    lemma_tree_at(pages, root, t);
    assert forall|p: PageId| #[trigger]
        pages.dom().contains(p) <==> pages.dom().contains(p) || tree_pages(pages, root).contains(
            p,
        ) by {
        if tree_pages(pages, root).contains(p) {
            lemma_stored_ids(pages, t, p);
        }
    }
}

/// A tree without one entry of a leaf holds what the tree did, without it.
proof fn lemma_removed_leaf(
    before: Map<PageId, Seq<u8>>,
    pages: Map<PageId, Seq<u8>>,
    root: PageId,
    t: Tree,
    now: Tree,
    at: int,
    new_leaf: Tree,
    key: Seq<u8>,
)
    requires
        is_tree(before, root, t),
        is_tree(pages, root, now),
        leaf_for(t, at, key),
        new_leaf is Leaf,
        new_leaf->entries == removed(leaves(t)[at]->entries, key),
        leaves(now) == leaves(t).update(at, new_leaf),
        ids(now) == ids(t),
        pages.dom() == before.dom(),
        new_leaf.id() == leaves(t)[at].id(),
        forall|p: PageId| #[trigger]
            before.dom().contains(p) && p != new_leaf.id() ==> pages[p] == before[p],
    ensures
        tree_entries(pages, root) == Some(removed(contents(t), key)),
        tree_grown(before, pages, root),
{
    lemma_tree_at(before, root, t);
    lemma_tree_at(pages, root, now);
    lemma_leaf_decides(before, root, t, at, key);
    lemma_leaves(pages, now, 0);
    let row = leaves(t);
    let new_row = leaves(now);
    lemma_list_around(new_row, at);
    assert(new_row.take(at) =~= row.take(at));
    assert(new_row.skip(at + 1) =~= row.skip(at + 1));
    assert(new_row[at] == new_leaf);
    assert(contents(new_leaf) == new_leaf->entries);
    lemma_leaf_ids(t, at);
    assert forall|p: PageId| #[trigger]
        pages.dom().contains(p) <==> before.dom().contains(p) || tree_pages(pages, root).contains(
            p,
        ) by {
        if tree_pages(pages, root).contains(p) {
            lemma_stored_ids(before, t, p);
        }
    }
}

} // verus!

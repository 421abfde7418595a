//! Rows of kids: what a branch has, and what becomes of it when one of the
//! kids is replaced by one or two others.

use super::key::MAX_KEY_LEN;
use super::tree::{
    after_kid, balanced, contents, contents_list, first_leaf, high_bound, ids, ids_list, in_order,
    keys_in_order, kids_in_order, lemma_contains_concat, lemma_contents_concat, lemma_ids_concat,
    lemma_ids_list_kid, lemma_kid_ids, lemma_kids_apart, lemma_kids_skip, lemma_kids_take,
    lemma_list_around, lemma_no_duplicates_parts, lemma_no_duplicates_whole, lemma_stored_frame,
    lemma_stored_ids, level, linked, low_bound, roots, sound, stored, Tree,
};
use crate::order::{bytes_lt, lemma_lt_transitive};
use crate::storage::PageId;
use vstd::prelude::*;

verus! {

/// Whether `kids` are sound, side by side, with `keys` between them.
pub open spec fn row_sound(
    pages: Map<PageId, Seq<u8>>,
    keys: Seq<Seq<u8>>,
    kids: Seq<Tree>,
    low: Seq<u8>,
    high: Option<Seq<u8>>,
    after: PageId,
) -> bool {
    &&& kids_in_order(keys, kids, low, high)
    &&& forall|i: int| 0 <= i < kids.len() ==> stored(pages, #[trigger] kids[i])
    &&& forall|i: int|
        0 <= i < kids.len() ==> balanced(#[trigger] kids[i]) && level(kids[i]) == level(kids[0])
    &&& forall|i: int| 0 <= i < kids.len() ==> linked(kids[i], #[trigger] after_kid(kids, i, after))
    &&& ids_list(kids).no_duplicates()
}

/// What a change of the tree `t` into the trees `now` may do to the pages:
/// it keeps `t`'s pages, may add new ones, and touches no others.
pub open spec fn grown(
    before: Map<PageId, Seq<u8>>,
    after: Map<PageId, Seq<u8>>,
    t: Tree,
    now: Seq<Tree>,
) -> bool {
    &&& forall|p: PageId| #[trigger]
        after.dom().contains(p) <==> before.dom().contains(p) || ids_list(now).contains(p)
    &&& forall|p: PageId| #[trigger]
        before.dom().contains(p) && !ids(t).contains(p) ==> after[p] == before[p]
    &&& forall|p: PageId| #[trigger]
        ids_list(now).contains(p) ==> ids(t).contains(p) || !before.dom().contains(p)
    &&& forall|p: PageId| #[trigger] ids(t).contains(p) ==> ids_list(now).contains(p)
}

/// `keys` with `more` put in at `at`.
pub open spec fn keys_with(keys: Seq<Seq<u8>>, at: int, more: Seq<Seq<u8>>) -> Seq<Seq<u8>> {
    keys.take(at) + more + keys.skip(at)
}

/// `kids` with kid `at` replaced by `more`.
pub open spec fn kids_with(kids: Seq<Tree>, at: int, more: Seq<Tree>) -> Seq<Tree> {
    kids.take(at) + more + kids.skip(at + 1)
}

/// A branch is a row of at least two kids under a page of its own.
pub proof fn lemma_branch_is_row(
    pages: Map<PageId, Seq<u8>>,
    t: Tree,
    low: Seq<u8>,
    high: Option<Seq<u8>>,
    after: PageId,
)
    requires
        sound(pages, t, low, high, after),
        t is Branch,
    ensures
        row_sound(pages, t->keys, t->kids, low, high, after),
        t->kids.len() >= 2,
        !ids_list(t->kids).contains(t.id()),
{
    let kids = t->kids;
    lemma_no_duplicates_parts(seq![t.id()], ids_list(kids));
    assert(seq![t.id()].contains(t.id())) by {
        assert(seq![t.id()][0] == t.id());
    }
}

/// A row of at least two kids under a page of its own is a branch.
pub proof fn lemma_row_is_branch(
    pages: Map<PageId, Seq<u8>>,
    id: PageId,
    keys: Seq<Seq<u8>>,
    kids: Seq<Tree>,
    low: Seq<u8>,
    high: Option<Seq<u8>>,
    after: PageId,
)
    requires
        row_sound(pages, keys, kids, low, high, after),
        kids.len() >= 2,
        !ids_list(kids).contains(id),
        pages.dom().contains(id),
        super::tree::is_branch_page(pages[id], keys, roots(kids)),
    ensures
        sound(pages, (Tree::Branch { id, keys, kids }), low, high, after),
{
    let t = Tree::Branch { id, keys, kids };
    assert(in_order(t, low, high));
    assert(stored(pages, t));
    assert(balanced(t));
    assert(linked(t, after));
    let one = seq![id];
    assert(one.no_duplicates());
    assert forall|p: PageId| !(#[trigger] one.contains(p) && ids_list(kids).contains(p)) by {
        if one.contains(p) {
            assert(p == id);
        }
    }
    lemma_no_duplicates_whole(one, ids_list(kids));
}

/// Rows of pages that agree where they are stored.
pub proof fn lemma_row_frame(
    before: Map<PageId, Seq<u8>>,
    pages: Map<PageId, Seq<u8>>,
    keys: Seq<Seq<u8>>,
    kids: Seq<Tree>,
    low: Seq<u8>,
    high: Option<Seq<u8>>,
    after: PageId,
)
    requires
        row_sound(before, keys, kids, low, high, after),
        forall|p: PageId| #[trigger]
            ids_list(kids).contains(p) ==> pages.dom().contains(p) && pages[p] == before[p],
    ensures
        row_sound(pages, keys, kids, low, high, after),
{
    assert forall|i: int| 0 <= i < kids.len() implies stored(pages, #[trigger] kids[i]) by {
        assert forall|p: PageId| #[trigger] ids(kids[i]).contains(p) implies pages.dom().contains(p)
            && pages[p] == before[p] by {
            lemma_kid_ids(kids, i, p);
        }
        lemma_stored_frame(before, pages, kids[i]);
    }
}

proof fn lemma_graft_keys(
    keys: Seq<Seq<u8>>,
    low: Seq<u8>,
    high: Option<Seq<u8>>,
    at: int,
    more: Seq<Seq<u8>>,
)
    requires
        keys_in_order(keys, low, high),
        0 <= at <= keys.len(),
        keys_in_order(more, low_bound(keys, low, at), high_bound(keys, high, at)),
    ensures
        keys_in_order(keys_with(keys, at, more), low, high),
{
    let now = keys_with(keys, at, more);
    let n = more.len() as int;
    assert forall|i: int| 0 <= i < now.len() implies (#[trigger] now[i]).len() <= MAX_KEY_LEN
        && bytes_lt(low, now[i]) && (high matches Some(h) ==> bytes_lt(now[i], h)) by {
        if i < at {
            assert(now[i] == keys[i]);
        } else if i < at + n {
            let k = more[i - at];
            assert(now[i] == k);
            if at > 0 {
                lemma_lt_transitive(low, keys[at - 1], k);
            }
            if high is Some && at < keys.len() {
                lemma_lt_transitive(k, keys[at], high->Some_0);
            }
        } else {
            assert(now[i] == keys[i - n]);
        }
    }
    assert forall|i: int, j: int| 0 <= i < j < now.len() implies bytes_lt(
        #[trigger] now[i],
        #[trigger] now[j],
    ) by {
        if j < at {
            assert(now[i] == keys[i] && now[j] == keys[j]);
        } else if j < at + n {
            assert(now[j] == more[j - at]);
            if i < at {
                assert(now[i] == keys[i]);
                if i < at - 1 {
                    assert(bytes_lt(keys[i], keys[at - 1]));
                    lemma_lt_transitive(keys[i], keys[at - 1], now[j]);
                }
            } else {
                assert(now[i] == more[i - at]);
            }
        } else {
            assert(now[j] == keys[j - n]);
            if i < at {
                assert(now[i] == keys[i]);
            } else if i < at + n {
                assert(now[i] == more[i - at]);
                if j - n > at {
                    assert(bytes_lt(keys[at], keys[j - n]));
                    lemma_lt_transitive(now[i], keys[at], now[j]);
                }
            } else {
                assert(now[i] == keys[i - n]);
            }
        }
    }
}

proof fn lemma_graft_order(
    keys: Seq<Seq<u8>>,
    kids: Seq<Tree>,
    low: Seq<u8>,
    high: Option<Seq<u8>>,
    at: int,
    more_keys: Seq<Seq<u8>>,
    more: Seq<Tree>,
)
    requires
        kids_in_order(keys, kids, low, high),
        0 <= at < kids.len(),
        kids_in_order(more_keys, more, low_bound(keys, low, at), high_bound(keys, high, at)),
    ensures
        kids_in_order(keys_with(keys, at, more_keys), kids_with(kids, at, more), low, high),
{
    lemma_graft_keys(keys, low, high, at, more_keys);
    let nk = keys_with(keys, at, more_keys);
    let now = kids_with(kids, at, more);
    let n = more_keys.len() as int;
    assert forall|i: int| 0 <= i < now.len() implies in_order(
        #[trigger] now[i],
        low_bound(nk, low, i),
        high_bound(nk, high, i),
    ) by {
        if i < at {
            assert(now[i] == kids[i]);
            assert(in_order(kids[i], low_bound(keys, low, i), high_bound(keys, high, i)));
            assert(nk[i] == keys[i]);
            if i > 0 {
                assert(nk[i - 1] == keys[i - 1]);
            }
        } else if i < at + n + 1 {
            let j = i - at;
            assert(now[i] == more[j]);
            assert(in_order(
                more[j],
                low_bound(more_keys, low_bound(keys, low, at), j),
                high_bound(more_keys, high_bound(keys, high, at), j),
            ));
            if j > 0 {
                assert(nk[i - 1] == more_keys[j - 1]);
            } else if at > 0 {
                assert(nk[i - 1] == keys[at - 1]);
            }
            if j < n {
                assert(nk[i] == more_keys[j]);
            } else if at < keys.len() {
                assert(nk[i] == keys[at]);
            }
        } else {
            let k = i - n;
            assert(now[i] == kids[k]);
            assert(in_order(kids[k], low_bound(keys, low, k), high_bound(keys, high, k)));
            assert(nk[i - 1] == keys[k - 1]);
            if k < keys.len() {
                assert(nk[i] == keys[k]);
            }
        }
    }
}

proof fn lemma_graft_ids(
    before: Map<PageId, Seq<u8>>,
    pages: Map<PageId, Seq<u8>>,
    kids: Seq<Tree>,
    at: int,
    more: Seq<Tree>,
)
    requires
        0 <= at < kids.len(),
        ids_list(kids).no_duplicates(),
        ids_list(more).no_duplicates(),
        forall|i: int| 0 <= i < kids.len() ==> stored(before, #[trigger] kids[i]),
        grown(before, pages, kids[at], more),
    ensures
        ids_list(kids_with(kids, at, more)).no_duplicates(),
        forall|p: PageId| #[trigger]
            ids_list(kids_with(kids, at, more)).contains(p) <==> ids_list(kids.take(at)).contains(p)
                || ids_list(more).contains(p) || ids_list(kids.skip(at + 1)).contains(p),
{
    let left = kids.take(at);
    let right = kids.skip(at + 1);
    let a = ids_list(left);
    let b = ids_list(more);
    let c = ids_list(right);
    lemma_list_around(kids, at);
    let x = ids(kids[at]);
    lemma_ids_concat(left + more, right);
    lemma_ids_concat(left, more);
    lemma_no_duplicates_parts(a + x, c);
    lemma_no_duplicates_parts(a, x);
    assert forall|p: PageId| !(#[trigger] a.contains(p) && b.contains(p)) by {
        if a.contains(p) && b.contains(p) {
            let i = lemma_ids_list_kid(left, p);
            assert(stored(before, kids[i]));
            lemma_stored_ids(before, kids[i], p);
        }
    }
    lemma_no_duplicates_whole(a, b);
    assert forall|p: PageId| !(#[trigger] (a + b).contains(p) && c.contains(p)) by {
        lemma_contains_concat(a, b, p);
        lemma_contains_concat(a, x, p);
        if (a + b).contains(p) && c.contains(p) {
            let i = lemma_ids_list_kid(right, p);
            assert(right[i] == kids[at + 1 + i]);
            lemma_stored_ids(before, kids[at + 1 + i], p);
        }
    }
    lemma_no_duplicates_whole(a + b, c);
    assert forall|p: PageId| #[trigger]
        ids_list(kids_with(kids, at, more)).contains(p) <==> a.contains(p) || b.contains(p)
            || c.contains(p) by {
        lemma_contains_concat(a + b, c, p);
        lemma_contains_concat(a, b, p);
    }
}

/// Every kid of the new row is stored, and balanced as the others are.
proof fn lemma_graft_stored(
    before: Map<PageId, Seq<u8>>,
    pages: Map<PageId, Seq<u8>>,
    keys: Seq<Seq<u8>>,
    kids: Seq<Tree>,
    low: Seq<u8>,
    high: Option<Seq<u8>>,
    after: PageId,
    at: int,
    more: Seq<Tree>,
)
    requires
        row_sound(before, keys, kids, low, high, after),
        0 <= at < kids.len(),
        more.len() > 0,
        forall|i: int| 0 <= i < more.len() ==> stored(pages, #[trigger] more[i]),
        forall|i: int|
            0 <= i < more.len() ==> balanced(#[trigger] more[i]) && level(more[i]) == level(
                more[0],
            ),
        level(more[0]) == level(kids[at]),
        grown(before, pages, kids[at], more),
    ensures
        ({
            let now = kids_with(kids, at, more);
            &&& now.len() > 0
            &&& level(now[0]) == level(kids[0])
            &&& forall|i: int| 0 <= i < now.len() ==> stored(pages, #[trigger] now[i])
            &&& forall|i: int|
                0 <= i < now.len() ==> balanced(#[trigger] now[i]) && level(now[i]) == level(
                    now[0],
                )
        }),
{
    let now = kids_with(kids, at, more);
    let m = more.len() as int;
    assert forall|i: int| 0 <= i < kids.len() && i != at implies stored(
        pages,
        #[trigger] kids[i],
    ) by {
        assert(stored(before, kids[i]));
        lemma_kids_apart(kids, i, at);
        assert forall|p: PageId| #[trigger] ids(kids[i]).contains(p) implies pages.dom().contains(p)
            && pages[p] == before[p] by {
            lemma_stored_ids(before, kids[i], p);
        }
        lemma_stored_frame(before, pages, kids[i]);
    }
    assert(level(kids[at]) == level(kids[0]));
    assert forall|i: int| 0 <= i < now.len() implies stored(pages, #[trigger] now[i]) && balanced(
        now[i],
    ) && level(now[i]) == level(kids[0]) by {
        if i < at {
            assert(now[i] == kids[i]);
        } else if i < at + m {
            assert(now[i] == more[i - at]);
        } else {
            assert(now[i] == kids[i - m + 1]);
        }
    }
}

/// The first leaves stay, so the links do.
proof fn lemma_graft_links(kids: Seq<Tree>, after: PageId, at: int, more: Seq<Tree>)
    requires
        0 <= at < kids.len(),
        more.len() > 0,
        forall|i: int|
            0 <= i < kids.len() ==> linked(kids[i], #[trigger] after_kid(kids, i, after)),
        forall|i: int|
            0 <= i < more.len() ==> linked(
                more[i],
                #[trigger] after_kid(more, i, after_kid(kids, at, after)),
            ),
        first_leaf(more[0]) == first_leaf(kids[at]),
    ensures
        ({
            let now = kids_with(kids, at, more);
            &&& first_leaf(now[0]) == first_leaf(kids[0])
            &&& forall|i: int|
                0 <= i < now.len() ==> linked(now[i], #[trigger] after_kid(now, i, after))
        }),
{
    let now = kids_with(kids, at, more);
    let m = more.len() as int;
    if at == 0 {
        assert(now[0] == more[0]);
    } else {
        assert(now[0] == kids[0]);
    }
    assert forall|i: int| 0 <= i < now.len() implies linked(
        now[i],
        #[trigger] after_kid(now, i, after),
    ) by {
        if i < at {
            assert(now[i] == kids[i]);
            assert(linked(kids[i], after_kid(kids, i, after)));
            if i + 1 < at {
                assert(now[i + 1] == kids[i + 1]);
            } else {
                assert(now[i + 1] == more[0]);
            }
        } else if i < at + m {
            let j = i - at;
            assert(now[i] == more[j]);
            assert(linked(more[j], after_kid(more, j, after_kid(kids, at, after))));
            if j + 1 < m {
                assert(now[i + 1] == more[j + 1]);
            } else if at + 1 < kids.len() {
                assert(now[i + 1] == kids[at + 1]);
            }
        } else {
            let k = i - m + 1;
            assert(now[i] == kids[k]);
            assert(linked(kids[k], after_kid(kids, k, after)));
            if k + 1 < kids.len() {
                assert(now[i + 1] == kids[k + 1]);
            }
        }
    }
}

/// A row stays sound when one of its kids is replaced by a sound row within
/// its bounds.
pub proof fn lemma_graft(
    before: Map<PageId, Seq<u8>>,
    pages: Map<PageId, Seq<u8>>,
    keys: Seq<Seq<u8>>,
    kids: Seq<Tree>,
    low: Seq<u8>,
    high: Option<Seq<u8>>,
    after: PageId,
    at: int,
    more_keys: Seq<Seq<u8>>,
    more: Seq<Tree>,
)
    requires
        row_sound(before, keys, kids, low, high, after),
        0 <= at < kids.len(),
        row_sound(
            pages,
            more_keys,
            more,
            low_bound(keys, low, at),
            high_bound(keys, high, at),
            after_kid(kids, at, after),
        ),
        level(more[0]) == level(kids[at]),
        first_leaf(more[0]) == first_leaf(kids[at]),
        grown(before, pages, kids[at], more),
    ensures
        ({
            let nk = keys_with(keys, at, more_keys);
            let now = kids_with(kids, at, more);
            &&& row_sound(pages, nk, now, low, high, after)
            &&& level(now[0]) == level(kids[0])
            &&& first_leaf(now[0]) == first_leaf(kids[0])
            &&& contents_list(now) == contents_list(kids.take(at)) + contents_list(more)
                + contents_list(kids.skip(at + 1))
            &&& forall|p: PageId| #[trigger]
                ids_list(now).contains(p) ==> ids_list(kids).contains(p) || !before.dom().contains(
                    p,
                )
            &&& forall|p: PageId| #[trigger]
                ids_list(now).contains(p) <==> ids_list(kids).contains(p) || ids_list(
                    more,
                ).contains(p)
        }),
{
    let nk = keys_with(keys, at, more_keys);
    let now = kids_with(kids, at, more);
    let left = kids.take(at);
    let right = kids.skip(at + 1);
    let m = more.len() as int;
    lemma_graft_order(keys, kids, low, high, at, more_keys, more);
    lemma_graft_ids(before, pages, kids, at, more);
    lemma_contents_concat(left + more, right);
    lemma_contents_concat(left, more);
    lemma_list_around(kids, at);
    lemma_graft_stored(before, pages, keys, kids, low, high, after, at, more);
    lemma_graft_links(kids, after, at, more);
    // The pages.
    let a = ids_list(left);
    let b = ids_list(more);
    let c = ids_list(right);
    let x = ids(kids[at]);
    assert forall|p: PageId| #[trigger]
        ids_list(now).contains(p) <==> ids_list(kids).contains(p) || b.contains(p) by {
        lemma_contains_concat(a + x, c, p);
        lemma_contains_concat(a, x, p);
    }
    assert forall|p: PageId| #[trigger] ids_list(now).contains(p) implies ids_list(kids).contains(p)
        || !before.dom().contains(p) by {
        lemma_contains_concat(a + x, c, p);
        lemma_contains_concat(a, x, p);
    }
}

/// The two parts of a row, on either side of separator `m`.
pub proof fn lemma_row_split(
    pages: Map<PageId, Seq<u8>>,
    keys: Seq<Seq<u8>>,
    kids: Seq<Tree>,
    low: Seq<u8>,
    high: Option<Seq<u8>>,
    after: PageId,
    m: int,
)
    requires
        row_sound(pages, keys, kids, low, high, after),
        0 <= m < keys.len(),
    ensures
        row_sound(
            pages,
            keys.take(m),
            kids.take(m + 1),
            low,
            Some(keys[m]),
            first_leaf(kids[m + 1]),
        ),
        row_sound(pages, keys.skip(m + 1), kids.skip(m + 1), keys[m], high, after),
        contents_list(kids) == contents_list(kids.take(m + 1)) + contents_list(kids.skip(m + 1)),
        ids_list(kids) == ids_list(kids.take(m + 1)) + ids_list(kids.skip(m + 1)),
{
    let left = kids.take(m + 1);
    let right = kids.skip(m + 1);
    lemma_kids_take(keys, kids, low, high, m);
    lemma_kids_skip(keys, kids, low, high, m);
    assert(kids =~= left + right);
    lemma_contents_concat(left, right);
    lemma_ids_concat(left, right);
    lemma_no_duplicates_parts(ids_list(left), ids_list(right));
    let middle = first_leaf(kids[m + 1]);
    assert forall|i: int| 0 <= i < left.len() implies linked(
        left[i],
        #[trigger] after_kid(left, i, middle),
    ) by {
        assert(linked(kids[i], after_kid(kids, i, after)));
    }
    assert(left[0] == kids[0]);
    assert forall|i: int| 0 <= i < left.len() implies stored(pages, #[trigger] left[i])
        && balanced(left[i]) && level(left[i]) == level(left[0]) by {
        assert(left[i] == kids[i]);
    }
    assert forall|i: int| 0 <= i < right.len() implies stored(pages, #[trigger] right[i])
        && balanced(right[i]) && level(right[i]) == level(right[0]) by {
        assert(right[i] == kids[i + m + 1]);
        assert(right[0] == kids[m + 1]);
    }
    assert forall|i: int| 0 <= i < right.len() implies linked(
        right[i],
        #[trigger] after_kid(right, i, after),
    ) by {
        assert(linked(kids[i + m + 1], after_kid(kids, i + m + 1, after)));
    }
}

/// One tree is a row.
pub proof fn lemma_row_of_one(
    pages: Map<PageId, Seq<u8>>,
    t: Tree,
    low: Seq<u8>,
    high: Option<Seq<u8>>,
    after: PageId,
)
    requires
        sound(pages, t, low, high, after),
    ensures
        row_sound(pages, seq![], seq![t], low, high, after),
        contents_list(seq![t]) == contents(t),
        ids_list(seq![t]) == ids(t),
{
    super::tree::lemma_single_list(t);
    let kids = seq![t];
    assert(kids[0] == t);
}

/// Two trees side by side are a row.
pub proof fn lemma_row_of_two(
    pages: Map<PageId, Seq<u8>>,
    l: Tree,
    r: Tree,
    separator: Seq<u8>,
    low: Seq<u8>,
    high: Option<Seq<u8>>,
    after: PageId,
)
    requires
        sound(pages, l, low, Some(separator), first_leaf(r)),
        sound(pages, r, separator, high, after),
        level(l) == level(r),
        separator.len() <= MAX_KEY_LEN,
        bytes_lt(low, separator),
        high matches Some(h) ==> bytes_lt(separator, h),
        forall|p: PageId| !(#[trigger] ids(l).contains(p) && ids(r).contains(p)),
    ensures
        row_sound(pages, seq![separator], seq![l, r], low, high, after),
        contents_list(seq![l, r]) == contents(l) + contents(r),
        ids_list(seq![l, r]) == ids(l) + ids(r),
{
    let kids = seq![l, r];
    let keys = seq![separator];
    super::tree::lemma_single_list(l);
    super::tree::lemma_single_list(r);
    assert(kids =~= seq![l] + seq![r]);
    lemma_contents_concat(seq![l], seq![r]);
    lemma_ids_concat(seq![l], seq![r]);
    lemma_no_duplicates_whole(ids(l), ids(r));
    assert(kids[0] == l && kids[1] == r);
    assert forall|i: int| 0 <= i < kids.len() implies in_order(
        #[trigger] kids[i],
        low_bound(keys, low, i),
        high_bound(keys, high, i),
    ) by {
        if i == 0 {
        } else {
            assert(kids[i] == r);
        }
    }
    assert forall|i: int| 0 <= i < kids.len() implies linked(
        kids[i],
        #[trigger] after_kid(kids, i, after),
    ) by {
        if i == 0 {
            assert(kids[i + 1] == r);
        }
    }
}

} // verus!

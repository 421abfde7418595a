//! Sorting entries by key.

use super::entries::sorted;
use super::node::entry_models;
use super::tree::Entry;
use crate::order::{
    bytes_less, bytes_lt, lemma_lt_asymmetric, lemma_lt_total, lemma_lt_transitive,
};
use crate::storage::RecordLocation;
use vstd::prelude::*;

verus! {

/// Whether entries with the same key are the same.
pub open spec fn one_each(a: Seq<Entry>, b: Seq<Entry>) -> bool {
    forall|i: int, j: int|
        0 <= i < a.len() && 0 <= j < b.len() && (#[trigger] a[i]).0 == (#[trigger] b[j]).0 ==> a[i]
            == b[j]
}

/// Whether keys strictly descend.
spec fn descending(entries: Seq<Entry>) -> bool {
    forall|i: int, j: int|
        0 <= i < j < entries.len() ==> bytes_lt((#[trigger] entries[j]).0, (#[trigger] entries[i]).0)
}

/// Whether all keys of `a` are below all of `b`.
spec fn all_below(a: Seq<Entry>, b: Seq<Entry>) -> bool {
    forall|i: int, j: int|
        0 <= i < a.len() && 0 <= j < b.len() ==> bytes_lt((#[trigger] a[i]).0, (#[trigger] b[j]).0)
}

/// What is among entries, the last apart.
proof fn lemma_last_apart(entries: Seq<Entry>, e: Entry)
    requires
        entries.len() > 0,
    ensures
        entries.contains(e) <==> entries.drop_last().contains(e) || e == entries.last(),
{
    let front = entries.drop_last();
    if entries.contains(e) && e != entries.last() {
        let i = choose|i: int| 0 <= i < entries.len() && entries[i] == e;
        assert(front[i] == e);
    }
    if front.contains(e) {
        let i = choose|i: int| 0 <= i < front.len() && front[i] == e;
        assert(entries[i] == e);
    }
    assert(entries[entries.len() - 1] == entries.last());
}

/// Entries in the opposite order.
pub(crate) fn reversed(back: Vec<(Vec<u8>, RecordLocation)>) -> (r: Vec<(Vec<u8>, RecordLocation)>)
    ensures
        ({
            let o = entry_models(back@);
            entry_models(r@) == Seq::new(o.len(), |i: int| o[o.len() - 1 - i])
        }),
{
    let ghost o = entry_models(back@);
    let mut left = back;
    let mut out: Vec<(Vec<u8>, RecordLocation)> = Vec::new();
    while left.len() > 0
        invariant
            entry_models(left@) == o.take(left@.len() as int),
            left@.len() + out@.len() == o.len(),
            forall|i: int|
                0 <= i < out@.len() ==> entry_models(out@)[i] == #[trigger] o[o.len() - 1 - i],
        decreases left@.len(),
    {
        let ghost before = out@;
        let ghost n = left@.len() as int;
        let ghost rest = left@;
        match left.pop() {
            Some(entry) => {
                proof {
                    assert(entry_models(rest)[n - 1] == o[n - 1]);
                    assert(entry_models(left@) =~= o.take(n - 1)) by {
                        assert forall|i: int| 0 <= i < n - 1 implies entry_models(left@)[i]
                            == o.take(n - 1)[i] by {
                            assert(entry_models(rest)[i] == o.take(n)[i]);
                        }
                    }
                }
                out.push(entry);
                proof {
                    assert forall|i: int| 0 <= i < out@.len() implies entry_models(out@)[i]
                        == #[trigger] o[o.len() - 1 - i] by {
                        if i < before.len() {
                            assert(entry_models(before)[i] == o[o.len() - 1 - i]);
                        }
                    }
                }
            },
            None => {},
        }
    }
    assert(entry_models(out@) =~= Seq::new(o.len(), |i: int| o[o.len() - 1 - i]));
    out
}

/// Whether what was taken so far is in order, above what is left.
spec fn merging(
    a: Seq<Entry>,
    b: Seq<Entry>,
    left: Seq<Entry>,
    right: Seq<Entry>,
    back: Seq<Entry>,
) -> bool {
    &&& sorted(left)
    &&& sorted(right)
    &&& one_each(left, right)
    &&& descending(back)
    &&& all_below(left, back)
    &&& all_below(right, back)
    &&& forall|e: Entry| #[trigger]
        in_one_of(left, right, back, e) <==> a.contains(e) || b.contains(e)
}

/// Whether an entry is in one of three parts.
spec fn in_one_of(left: Seq<Entry>, right: Seq<Entry>, back: Seq<Entry>, e: Entry) -> bool {
    left.contains(e) || right.contains(e) || back.contains(e)
}

/// Taking the largest entry that is left.
proof fn lemma_taken(
    a: Seq<Entry>,
    b: Seq<Entry>,
    left: Seq<Entry>,
    right: Seq<Entry>,
    back: Seq<Entry>,
    from_left: bool,
    from_right: bool,
    e: Entry,
)
    requires
        merging(a, b, left, right, back),
        from_left || from_right,
        from_left ==> left.len() > 0 && e == left.last(),
        from_right ==> right.len() > 0 && e == right.last(),
        !from_left && left.len() > 0 ==> bytes_lt(left.last().0, e.0),
        !from_right && right.len() > 0 ==> bytes_lt(right.last().0, e.0),
    ensures
        merging(
            a,
            b,
            if from_left {
                left.drop_last()
            } else {
                left
            },
            if from_right {
                right.drop_last()
            } else {
                right
            },
            back.push(e),
        ),
{
    let l = if from_left {
        left.drop_last()
    } else {
        left
    };
    let r = if from_right {
        right.drop_last()
    } else {
        right
    };
    let o = back.push(e);
    if from_left {
        assert(left[left.len() - 1] == e);
    }
    if from_right {
        assert(right[right.len() - 1] == e);
    }
    assert forall|i: int| 0 <= i < l.len() implies bytes_lt((#[trigger] l[i]).0, e.0) by {
        if from_left {
            assert(bytes_lt(left[i].0, left[left.len() - 1].0));
        } else if i < left.len() - 1 {
            assert(bytes_lt(left[i].0, left[left.len() - 1].0));
            lemma_lt_transitive(left[i].0, left.last().0, e.0);
        }
    }
    assert forall|i: int| 0 <= i < r.len() implies bytes_lt((#[trigger] r[i]).0, e.0) by {
        if from_right {
            assert(bytes_lt(right[i].0, right[right.len() - 1].0));
        } else if i < right.len() - 1 {
            assert(bytes_lt(right[i].0, right[right.len() - 1].0));
            lemma_lt_transitive(right[i].0, right.last().0, e.0);
        }
    }
    assert forall|i: int, j: int| 0 <= i < l.len() && 0 <= j < o.len() implies bytes_lt(
        (#[trigger] l[i]).0,
        (#[trigger] o[j]).0,
    ) by {
        assert(l[i] == left[i]);
        if j < back.len() {
            assert(o[j] == back[j]);
        }
    }
    assert forall|i: int, j: int| 0 <= i < r.len() && 0 <= j < o.len() implies bytes_lt(
        (#[trigger] r[i]).0,
        (#[trigger] o[j]).0,
    ) by {
        assert(r[i] == right[i]);
        if j < back.len() {
            assert(o[j] == back[j]);
        }
    }
    assert forall|i: int, j: int| 0 <= i < j < o.len() implies bytes_lt(
        (#[trigger] o[j]).0,
        (#[trigger] o[i]).0,
    ) by {
        assert(o[i] == back[i]);
        if j < back.len() {
            assert(o[j] == back[j]);
        } else if from_left {
            assert(bytes_lt(left[left.len() - 1].0, back[i].0));
        } else {
            assert(bytes_lt(right[right.len() - 1].0, back[i].0));
        }
    }
    assert forall|x: Entry| #[trigger]
        in_one_of(l, r, o, x) <==> a.contains(x) || b.contains(x) by {
        assert(in_one_of(left, right, back, x) <==> a.contains(x) || b.contains(x));
        lemma_last_apart(o, x);
        assert(o.drop_last() =~= back);
        if from_left {
            lemma_last_apart(left, x);
        }
        if from_right {
            lemma_last_apart(right, x);
        }
    }
    assert forall|i: int, j: int|
        0 <= i < l.len() && 0 <= j < r.len() && (#[trigger] l[i]).0 == (
        #[trigger] r[j]).0 implies l[i] == r[j] by {
        assert(l[i] == left[i] && r[j] == right[j]);
    }
}

/// Merges entries in key order; of two that are the same, one stays.
fn merge(
    a: Vec<(Vec<u8>, RecordLocation)>,
    b: Vec<(Vec<u8>, RecordLocation)>,
) -> (r: Vec<(Vec<u8>, RecordLocation)>)
    ensures
        sorted(entry_models(a@)) && sorted(entry_models(b@)) && one_each(
            entry_models(a@),
            entry_models(b@),
        ) ==> sorted(entry_models(r@)) && forall|e: Entry| #[trigger]
            entry_models(r@).contains(e) <==> entry_models(a@).contains(e) || entry_models(
                b@,
            ).contains(e),
{
    let ghost x = entry_models(a@);
    let ghost y = entry_models(b@);
    let ghost good = sorted(x) && sorted(y) && one_each(x, y);
    let mut left = a;
    let mut right = b;
    let mut back: Vec<(Vec<u8>, RecordLocation)> = Vec::new();
    assert(entry_models(back@) =~= Seq::<Entry>::empty());
    while left.len() > 0 || right.len() > 0
        invariant
            good ==> merging(x, y, entry_models(left@), entry_models(right@), entry_models(back@)),
        decreases left@.len() + right@.len(),
    {
        let ghost l = entry_models(left@);
        let ghost r = entry_models(right@);
        let ghost o = entry_models(back@);
        let n: usize = left.len();
        let m: usize = right.len();
        let from_left: bool = m == 0 || (n > 0 && !bytes_less(
            left[n - 1].0.as_slice(),
            right[m - 1].0.as_slice(),
        ));
        let from_right: bool = n == 0 || (m > 0 && !bytes_less(
            right[m - 1].0.as_slice(),
            left[n - 1].0.as_slice(),
        ));
        let ghost e = if from_left {
            l.last()
        } else {
            r.last()
        };
        proof {
            if n > 0 {
                assert(l[n - 1].0 == left@[n - 1].0@);
            }
            if m > 0 {
                assert(r[m - 1].0 == right@[m - 1].0@);
            }
            if n > 0 && m > 0 {
                lemma_lt_total(l.last().0, r.last().0);
                if from_left && from_right {
                    assert(l[n - 1].0 == r[m - 1].0);
                } else if !from_left {
                    lemma_lt_asymmetric(l.last().0, r.last().0);
                }
            }
            if good {
                lemma_taken(x, y, l, r, o, from_left, from_right, e);
            }
        }
        let mut taken: Option<(Vec<u8>, RecordLocation)> = None;
        if from_right {
            taken = right.pop();
            assert(entry_models(right@) =~= r.drop_last());
        }
        if from_left {
            taken = left.pop();
            assert(entry_models(left@) =~= l.drop_last());
        }
        match taken {
            Some(entry) => {
                back.push(entry);
                assert(entry_models(back@) =~= o.push(e));
            },
            None => {},
        }
    }
    let ghost o = entry_models(back@);
    let out = reversed(back);
    proof {
        if good {
            let z = entry_models(out@);
            assert forall|e: Entry| #[trigger] z.contains(e) <==> x.contains(e) || y.contains(
                e,
            ) by {
                assert(in_one_of(entry_models(left@), entry_models(right@), o, e)
                    <==> x.contains(e) || y.contains(e));
                if o.contains(e) {
                    let i = choose|i: int| 0 <= i < o.len() && o[i] == e;
                    assert(z[o.len() - 1 - i] == e);
                }
                if z.contains(e) {
                    let i = choose|i: int| 0 <= i < z.len() && z[i] == e;
                    assert(o[o.len() - 1 - i] == e);
                }
            }
        }
    }
    out
}

/// Sorts entries by key; of several that are the same, one stays.
pub fn sort_entries(entries: Vec<(Vec<u8>, RecordLocation)>) -> (r: Vec<
    (Vec<u8>, RecordLocation),
>)
    ensures
        one_each(entry_models(entries@), entry_models(entries@)) ==> sorted(entry_models(r@))
            && forall|e: Entry| #[trigger]
            entry_models(r@).contains(e) <==> entry_models(entries@).contains(e),
    decreases entries@.len(),
{
    let ghost all = entry_models(entries@);
    let n: usize = entries.len();
    if n < 2 {
        return entries;
    }
    let mut left = entries;
    let half: usize = n / 2;
    let right = left.split_off(half);
    let ghost x = entry_models(left@);
    let ghost y = entry_models(right@);
    proof {
        assert(x =~= all.take(half as int));
        assert(y =~= all.skip(half as int));
        if one_each(all, all) {
            assert forall|i: int, j: int|
                0 <= i < x.len() && 0 <= j < x.len() && (#[trigger] x[i]).0 == (
                #[trigger] x[j]).0 implies x[i] == x[j] by {
                assert(x[i] == all[i] && x[j] == all[j]);
            }
            assert forall|i: int, j: int|
                0 <= i < y.len() && 0 <= j < y.len() && (#[trigger] y[i]).0 == (
                #[trigger] y[j]).0 implies y[i] == y[j] by {
                assert(y[i] == all[half + i] && y[j] == all[half + j]);
            }
        }
    }
    let a = sort_entries(left);
    let b = sort_entries(right);
    let ghost u = entry_models(a@);
    let ghost v = entry_models(b@);
    proof {
        if one_each(all, all) {
            assert forall|i: int, j: int|
                0 <= i < u.len() && 0 <= j < v.len() && (#[trigger] u[i]).0 == (
                #[trigger] v[j]).0 implies u[i] == v[j] by {
                assert(u.contains(u[i]) && v.contains(v[j]));
                let k = choose|k: int| 0 <= k < x.len() && x[k] == u[i];
                let m = choose|m: int| 0 <= m < y.len() && y[m] == v[j];
                assert(all[k] == u[i] && all[half + m] == v[j]);
            }
            assert forall|e: Entry| #[trigger] all.contains(e) <==> x.contains(e) || y.contains(
                e,
            ) by {
                if all.contains(e) {
                    let i = choose|i: int| 0 <= i < all.len() && all[i] == e;
                    if i < half {
                        assert(x[i] == e);
                    } else {
                        assert(y[i - half] == e);
                    }
                }
                if x.contains(e) {
                    let i = choose|i: int| 0 <= i < x.len() && x[i] == e;
                    assert(all[i] == e);
                }
                if y.contains(e) {
                    let i = choose|i: int| 0 <= i < y.len() && y[i] == e;
                    assert(all[half + i] == e);
                }
            }
        }
    }
    let r = merge(a, b);
    proof {
        if one_each(all, all) {
            assert forall|e: Entry| #[trigger] entry_models(r@).contains(e) <==> all.contains(
                e,
            ) by {
                assert(u.contains(e) <==> x.contains(e));
                assert(v.contains(e) <==> y.contains(e));
            }
        }
    }
    r
}

} // verus!

//! What an index holds: entries in ascending key order, each key once.

use super::range::RangeModel;
use crate::order::{
    bytes_lt, lemma_le_is_not_gt, lemma_lt_asymmetric, lemma_lt_irreflexive, lemma_lt_le_transitive,
    lemma_lt_total,
};
use vstd::prelude::*;

verus! {

/// Whether keys strictly ascend.
pub open spec fn sorted<V>(entries: Seq<(Seq<u8>, V)>) -> bool {
    forall|i: int, j: int|
        0 <= i < j < entries.len() ==> bytes_lt((#[trigger] entries[i]).0, (#[trigger] entries[j]).0)
}

/// How many entries, from the first on, come before `key`.
pub open spec fn key_position<V>(entries: Seq<(Seq<u8>, V)>, key: Seq<u8>) -> int
    decreases entries.len(),
{
    if entries.len() == 0 || !bytes_lt(entries[0].0, key) {
        0
    } else {
        1 + key_position(entries.skip(1), key)
    }
}

/// Whether `key` is among the entries.
pub open spec fn has_key<V>(entries: Seq<(Seq<u8>, V)>, key: Seq<u8>) -> bool {
    let at = key_position(entries, key);
    at < entries.len() && entries[at].0 == key
}

/// What `key` stands for.
pub open spec fn find<V>(entries: Seq<(Seq<u8>, V)>, key: Seq<u8>) -> Option<V> {
    if has_key(entries, key) {
        Some(entries[key_position(entries, key)].1)
    } else {
        None
    }
}

/// The entries with `key` standing for `value`.
pub open spec fn inserted<V>(entries: Seq<(Seq<u8>, V)>, key: Seq<u8>, value: V) -> Seq<
    (Seq<u8>, V),
> {
    let at = key_position(entries, key);
    if has_key(entries, key) {
        entries.update(at, (key, value))
    } else {
        entries.insert(at, (key, value))
    }
}

/// The entries without `key`.
pub open spec fn removed<V>(entries: Seq<(Seq<u8>, V)>, key: Seq<u8>) -> Seq<(Seq<u8>, V)> {
    if has_key(entries, key) {
        entries.remove(key_position(entries, key))
    } else {
        entries
    }
}

/// The entries with a key in `range`.
pub open spec fn in_range<V>(entries: Seq<(Seq<u8>, V)>, range: RangeModel) -> Seq<(Seq<u8>, V)> {
    entries.filter(|e: (Seq<u8>, V)| range.has(e.0))
}

/// Whether every key lies in `[low, high)`.
pub open spec fn bounded<V>(
    entries: Seq<(Seq<u8>, V)>,
    low: Seq<u8>,
    high: Option<Seq<u8>>,
) -> bool {
    forall|i: int|
        0 <= i < entries.len() ==> !bytes_lt((#[trigger] entries[i]).0, low) && (high matches Some(
            h,
        ) ==> bytes_lt(entries[i].0, h))
}

pub proof fn lemma_key_position<V>(entries: Seq<(Seq<u8>, V)>, key: Seq<u8>)
    ensures
        0 <= key_position(entries, key) <= entries.len(),
        forall|i: int|
            0 <= i < key_position(entries, key) ==> bytes_lt((#[trigger] entries[i]).0, key),
        key_position(entries, key) < entries.len() ==> !bytes_lt(
            entries[key_position(entries, key)].0,
            key,
        ),
    decreases entries.len(),
{
    if entries.len() > 0 && bytes_lt(entries[0].0, key) {
        let rest = entries.skip(1);
        lemma_key_position(rest, key);
        assert forall|i: int| 0 <= i < key_position(entries, key) implies bytes_lt(
            (#[trigger] entries[i]).0,
            key,
        ) by {
            if i > 0 {
                assert(rest[i - 1] == entries[i]);
            }
        }
    }
}

/// The position of a key is known once what is before and after it is.
pub proof fn lemma_key_position_is<V>(entries: Seq<(Seq<u8>, V)>, key: Seq<u8>, at: int)
    requires
        0 <= at <= entries.len(),
        forall|i: int| 0 <= i < at ==> bytes_lt((#[trigger] entries[i]).0, key),
        at < entries.len() ==> !bytes_lt(entries[at].0, key),
    ensures
        key_position(entries, key) == at,
{
    lemma_key_position(entries, key);
    let found = key_position(entries, key);
    if found < at {
        assert(bytes_lt(entries[found].0, key));
    }
    if at < found {
        assert(bytes_lt(entries[at].0, key));
    }
}

/// From the position of `key` on, keys are not less; past an equal one they
/// are greater.
pub proof fn lemma_after_position<V>(entries: Seq<(Seq<u8>, V)>, key: Seq<u8>)
    requires
        sorted(entries),
    ensures
        forall|i: int|
            key_position(entries, key) <= i < entries.len() ==> !bytes_lt(
                (#[trigger] entries[i]).0,
                key,
            ),
        forall|i: int|
            key_position(entries, key) < i < entries.len() ==> bytes_lt(
                key,
                (#[trigger] entries[i]).0,
            ),
{
    lemma_key_position(entries, key);
    let at = key_position(entries, key);
    assert forall|i: int| at <= i < entries.len() implies !bytes_lt((#[trigger] entries[i]).0, key)
        && (at < i ==> bytes_lt(key, entries[i].0)) by {
        if at < i {
            assert(bytes_lt(entries[at].0, entries[i].0));
            lemma_le_is_not_gt(key, entries[at].0);
            lemma_lt_le_transitive(key, entries[at].0, entries[i].0);
            lemma_lt_asymmetric(key, entries[i].0);
        }
    }
}

/// A key that is somewhere among sorted entries is at its position.
pub proof fn lemma_has_key<V>(entries: Seq<(Seq<u8>, V)>, key: Seq<u8>, at: int)
    requires
        sorted(entries),
        0 <= at < entries.len(),
        entries[at].0 == key,
    ensures
        key_position(entries, key) == at,
        has_key(entries, key),
{
    assert forall|i: int| 0 <= i < at implies bytes_lt((#[trigger] entries[i]).0, key) by {
        assert(bytes_lt(entries[i].0, entries[at].0));
    }
    lemma_lt_irreflexive(key);
    lemma_key_position_is(entries, key, at);
}

pub proof fn lemma_inserted_sorted<V>(entries: Seq<(Seq<u8>, V)>, key: Seq<u8>, value: V)
    requires
        sorted(entries),
    ensures
        sorted(inserted(entries, key, value)),
{
    lemma_key_position(entries, key);
    lemma_after_position(entries, key);
    let at = key_position(entries, key);
    let now = inserted(entries, key, value);
    assert forall|i: int, j: int| 0 <= i < j < now.len() implies bytes_lt(
        (#[trigger] now[i]).0,
        (#[trigger] now[j]).0,
    ) by {
        if has_key(entries, key) {
            assert(now[i].0 == entries[i].0 && now[j].0 == entries[j].0);
        } else {
            let a = if i < at {
                i
            } else {
                i - 1
            };
            let b = if j < at {
                j
            } else {
                j - 1
            };
            if i == at {
                // The new entry before an old one.
                assert(now[j] == entries[b]);
                if b == at {
                    lemma_lt_total(key, entries[at].0);
                }
            } else if j == at {
                assert(now[i] == entries[a]);
            } else {
                assert(now[i] == entries[a] && now[j] == entries[b]);
            }
        }
    }
}

pub proof fn lemma_removed_sorted<V>(entries: Seq<(Seq<u8>, V)>, key: Seq<u8>)
    requires
        sorted(entries),
    ensures
        sorted(removed(entries, key)),
{
    lemma_key_position(entries, key);
}

/// Bounds are kept by an insert of a key within them.
pub proof fn lemma_inserted_bounded<V>(
    entries: Seq<(Seq<u8>, V)>,
    key: Seq<u8>,
    value: V,
    low: Seq<u8>,
    high: Option<Seq<u8>>,
)
    requires
        bounded(entries, low, high),
        !bytes_lt(key, low),
        high matches Some(h) ==> bytes_lt(key, h),
    ensures
        bounded(inserted(entries, key, value), low, high),
{
    lemma_key_position(entries, key);
    let at = key_position(entries, key);
    let now = inserted(entries, key, value);
    assert forall|i: int| 0 <= i < now.len() implies !bytes_lt((#[trigger] now[i]).0, low) && (
    high matches Some(h) ==> bytes_lt(now[i].0, h)) by {
        if has_key(entries, key) {
            if i != at {
                assert(now[i] == entries[i]);
            }
        } else if i < at {
            assert(now[i] == entries[i]);
        } else if i > at {
            assert(now[i] == entries[i - 1]);
        }
    }
}

/// Where a key stands among entries of three parts, when it can only be in
/// the middle one.
pub proof fn lemma_position_in_middle<V>(
    a: Seq<(Seq<u8>, V)>,
    b: Seq<(Seq<u8>, V)>,
    c: Seq<(Seq<u8>, V)>,
    key: Seq<u8>,
)
    requires
        forall|i: int| 0 <= i < a.len() ==> bytes_lt((#[trigger] a[i]).0, key),
        forall|i: int| 0 <= i < c.len() ==> bytes_lt(key, (#[trigger] c[i]).0),
    ensures
        key_position(a + b + c, key) == a.len() + key_position(b, key),
        has_key(a + b + c, key) == has_key(b, key),
{
    lemma_key_position(b, key);
    let all = a + b + c;
    let at = a.len() + key_position(b, key);
    assert forall|i: int| 0 <= i < at implies bytes_lt((#[trigger] all[i]).0, key) by {
        if i < a.len() {
            assert(all[i] == a[i]);
        } else {
            assert(all[i] == b[i - a.len()]);
        }
    }
    if at < all.len() {
        if at < a.len() + b.len() {
            assert(all[at] == b[key_position(b, key)]);
        } else {
            let i = at - a.len() - b.len();
            assert(all[at] == c[i]);
            lemma_lt_asymmetric(key, c[i].0);
        }
    }
    lemma_key_position_is(all, key, at);
}

/// An insert into entries of three parts, when the key can only be in the
/// middle one.
pub proof fn lemma_inserted_in_middle<V>(
    a: Seq<(Seq<u8>, V)>,
    b: Seq<(Seq<u8>, V)>,
    c: Seq<(Seq<u8>, V)>,
    key: Seq<u8>,
    value: V,
)
    requires
        forall|i: int| 0 <= i < a.len() ==> bytes_lt((#[trigger] a[i]).0, key),
        forall|i: int| 0 <= i < c.len() ==> bytes_lt(key, (#[trigger] c[i]).0),
    ensures
        inserted(a + b + c, key, value) == a + inserted(b, key, value) + c,
{
    lemma_position_in_middle(a, b, c, key);
    lemma_key_position(b, key);
    assert(inserted(a + b + c, key, value) =~= a + inserted(b, key, value) + c);
}

pub proof fn lemma_removed_in_middle<V>(
    a: Seq<(Seq<u8>, V)>,
    b: Seq<(Seq<u8>, V)>,
    c: Seq<(Seq<u8>, V)>,
    key: Seq<u8>,
)
    requires
        forall|i: int| 0 <= i < a.len() ==> bytes_lt((#[trigger] a[i]).0, key),
        forall|i: int| 0 <= i < c.len() ==> bytes_lt(key, (#[trigger] c[i]).0),
    ensures
        removed(a + b + c, key) == a + removed(b, key) + c,
        find(a + b + c, key) == find(b, key),
{
    lemma_position_in_middle(a, b, c, key);
    lemma_key_position(b, key);
    assert(removed(a + b + c, key) =~= a + removed(b, key) + c);
}

/// An insert is found again, and leaves every other key as it was.
pub proof fn inserted_is_found<V>(
    entries: Seq<(Seq<u8>, V)>,
    key: Seq<u8>,
    value: V,
    other: Seq<u8>,
)
    requires
        sorted(entries),
    ensures
        find(inserted(entries, key, value), other) == (if other == key {
            Some(value)
        } else {
            find(entries, other)
        }),
{
    lemma_key_position(entries, key);
    lemma_inserted_sorted(entries, key, value);
    let now = inserted(entries, key, value);
    let at = key_position(entries, key);
    lemma_has_key(now, key, at);
    if other != key {
        if has_key(entries, other) {
            lemma_key_position(entries, other);
            let p = key_position(entries, other);
            let q = if has_key(entries, key) || p < at {
                p
            } else {
                p + 1
            };
            assert(now[q] == entries[p]);
            lemma_has_key(now, other, q);
        } else if has_key(now, other) {
            lemma_key_position(now, other);
            let q = key_position(now, other);
            let p = if has_key(entries, key) || q < at {
                q
            } else {
                q - 1
            };
            assert(q != at);
            assert(now[q] == entries[p]);
            lemma_has_key(entries, other, p);
        }
    }
}

/// A removed key is not found any more, and every other key is as it was.
pub proof fn removed_is_not_found<V>(entries: Seq<(Seq<u8>, V)>, key: Seq<u8>, other: Seq<u8>)
    requires
        sorted(entries),
    ensures
        find(removed(entries, key), other) == (if other == key {
            None
        } else {
            find(entries, other)
        }),
{
    lemma_key_position(entries, key);
    lemma_removed_sorted(entries, key);
    let now = removed(entries, key);
    let at = key_position(entries, key);
    if has_key(entries, key) {
        if has_key(now, other) {
            lemma_key_position(now, other);
            let q = key_position(now, other);
            let p = if q < at {
                q
            } else {
                q + 1
            };
            assert(now[q] == entries[p]);
            lemma_has_key(entries, other, p);
        } else if has_key(entries, other) && other != key {
            lemma_key_position(entries, other);
            let p = key_position(entries, other);
            let q = if p < at {
                p
            } else {
                p - 1
            };
            assert(now[q] == entries[p]);
            lemma_has_key(now, other, q);
        }
    }
}

/// The entries in a range of entries of two parts.
pub proof fn lemma_in_range_parts<V>(
    a: Seq<(Seq<u8>, V)>,
    b: Seq<(Seq<u8>, V)>,
    range: RangeModel,
)
    ensures
        in_range(a + b, range) == in_range(a, range) + in_range(b, range),
{
    Seq::filter_distributes_over_add(a, b, |e: (Seq<u8>, V)| range.has(e.0));
}

/// Nothing of entries that all lie outside a range.
pub proof fn lemma_in_range_none<V>(entries: Seq<(Seq<u8>, V)>, range: RangeModel)
    requires
        forall|i: int| 0 <= i < entries.len() ==> !range.has((#[trigger] entries[i]).0),
    ensures
        in_range(entries, range) == Seq::<(Seq<u8>, V)>::empty(),
    decreases entries.len(),
{
    reveal(Seq::filter);
    if entries.len() > 0 {
        lemma_in_range_none(entries.drop_last(), range);
        assert(!range.has(entries[entries.len() - 1].0));
    }
}

/// All of entries that lie in a range.
pub proof fn lemma_in_range_all<V>(entries: Seq<(Seq<u8>, V)>, range: RangeModel)
    requires
        forall|i: int| 0 <= i < entries.len() ==> range.has((#[trigger] entries[i]).0),
    ensures
        in_range(entries, range) == entries,
    decreases entries.len(),
{
    reveal(Seq::filter);
    if entries.len() > 0 {
        lemma_in_range_all(entries.drop_last(), range);
        assert(range.has(entries[entries.len() - 1].0));
        assert(entries.drop_last().push(entries.last()) =~= entries);
    }
}

/// One more entry, in a range or not.
pub proof fn lemma_in_range_push<V>(
    entries: Seq<(Seq<u8>, V)>,
    last: (Seq<u8>, V),
    range: RangeModel,
)
    ensures
        in_range(entries.push(last), range) == (if range.has(last.0) {
            in_range(entries, range).push(last)
        } else {
            in_range(entries, range)
        }),
{
    reveal(Seq::filter);
    assert(entries.push(last).drop_last() =~= entries);
}

} // verus!

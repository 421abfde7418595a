//! Ranges of index keys.

use super::key::{
    encode_value_in, key_order_is_filter_order, value_key, MAX_COMPOUND_FIELDS,
};
use crate::document::{DocModel, Document};
use crate::order::{
    bytes_less, bytes_lt, lemma_le_is_not_gt, lemma_le_transitive, lemma_lt_asymmetric,
    lemma_lt_common_front, lemma_lt_extends, lemma_lt_le_transitive, lemma_lt_total,
    lemma_lt_transitive, lemma_prefix_lt, starts_with,
};
use crate::query::{op_holds, related, Op, Relation};
use vstd::prelude::*;
use vstd::slice::{slice_subrange, slice_to_vec};

verus! {

/// A half-open range of keys, `start <= key < end` (`end: None` =
/// unbounded).
#[derive(Debug, PartialEq, Eq)]
pub struct KeyRange {
    pub start: Vec<u8>,
    pub end: Option<Vec<u8>>,
}

/// A range of keys, without how it is held.
#[verifier::ext_equal]
pub ghost struct RangeModel {
    pub start: Seq<u8>,
    pub end: Option<Seq<u8>>,
}

impl RangeModel {
    /// Whether `key` is in the range.
    pub open spec fn has(self, key: Seq<u8>) -> bool {
        !bytes_lt(key, self.start) && (self.end matches Some(end) ==> bytes_lt(key, end))
    }
}

impl View for KeyRange {
    type V = RangeModel;

    open spec fn view(&self) -> RangeModel {
        RangeModel {
            start: self.start@,
            end: match self.end {
                Some(end) => Some(end@),
                None => None,
            },
        }
    }
}

/// The first key after every key that begins with `prefix`: the prefix with
/// its last non-`0xFF` byte incremented and anything after dropped. `None`
/// if there's no such key (the prefix is all `0xFF`).
pub open spec fn after_prefix(prefix: Seq<u8>) -> Option<Seq<u8>>
    decreases prefix.len(),
{
    if prefix.len() == 0 {
        None
    } else if prefix.last() < 0xFF {
        Some(prefix.drop_last().push((prefix.last() + 1) as u8))
    } else {
        after_prefix(prefix.drop_last())
    }
}

/// The keys that begin with `prefix`.
pub open spec fn prefix_range(prefix: Seq<u8>) -> RangeModel {
    RangeModel { start: prefix, end: after_prefix(prefix) }
}

proof fn lemma_starts_with_front(key: Seq<u8>, prefix: Seq<u8>)
    requires
        starts_with(key, prefix),
    ensures
        key == prefix + key.skip(prefix.len() as int),
{
    assert(key =~= prefix + key.skip(prefix.len() as int));
}

/// A key not before `prefix` that doesn't begin with it comes after
/// everything that does.
proof fn lemma_past_prefix(prefix: Seq<u8>, key: Seq<u8>, more: Seq<u8>)
    requires
        !bytes_lt(key, prefix),
        !starts_with(key, prefix),
    ensures
        bytes_lt(prefix + more, key),
{
    lemma_lt_total(prefix, key);
    if prefix == key {
        assert(key.take(prefix.len() as int) =~= prefix);
    }
    lemma_lt_extends(prefix, key, more, seq![]);
    assert(key + Seq::<u8>::empty() =~= key);
}

/// A key begins with `prefix` exactly if it lies in the prefix's range.
pub proof fn prefix_range_is_exact(prefix: Seq<u8>, key: Seq<u8>)
    ensures
        prefix_range(prefix).has(key) <==> starts_with(key, prefix),
    decreases prefix.len(),
{
    if starts_with(key, prefix) {
        lemma_starts_with_front(key, prefix);
        let more = key.skip(prefix.len() as int);
        lemma_prefix_lt(prefix, more);
        lemma_le_is_not_gt(prefix, key);
        if after_prefix(prefix) is Some {
            lemma_before_after_prefix(prefix, more);
        }
    } else if prefix_range(prefix).has(key) {
        // Past every key with the prefix, yet before the first key after
        // them: there is none.
        if after_prefix(prefix) is Some {
            lemma_no_key_between(prefix, key);
        } else {
            lemma_all_ff(prefix, key);
        }
    }
}

proof fn lemma_before_after_prefix(prefix: Seq<u8>, more: Seq<u8>)
    requires
        after_prefix(prefix) is Some,
    ensures
        bytes_lt(prefix + more, after_prefix(prefix)->Some_0),
    decreases prefix.len(),
{
    let front = prefix.drop_last();
    let last = prefix.last();
    if last < 0xFF {
        let end = after_prefix(prefix)->Some_0;
        let tail = seq![last] + more;
        let bound = seq![(last + 1) as u8];
        assert(prefix + more =~= front + tail);
        assert(end =~= front + bound);
        lemma_lt_common_front(front, tail, bound);
    } else {
        assert(prefix + more =~= front + (seq![last] + more));
        lemma_before_after_prefix(front, seq![last] + more);
    }
}

proof fn lemma_no_key_between(prefix: Seq<u8>, key: Seq<u8>)
    requires
        after_prefix(prefix) is Some,
        !bytes_lt(key, prefix),
        bytes_lt(key, after_prefix(prefix)->Some_0),
    ensures
        starts_with(key, prefix),
    decreases prefix.len(),
{
    let front = prefix.drop_last();
    let last = prefix.last();
    let end = after_prefix(prefix)->Some_0;
    assert(prefix =~= front + seq![last]);
    if last < 0xFF {
        let bound = seq![(last + 1) as u8];
        assert(end =~= front + bound);
        if !starts_with(key, front) {
            lemma_prefix_lt(front, seq![last]);
            if bytes_lt(key, front) {
                lemma_lt_le_transitive(key, front, prefix);
            }
            lemma_past_prefix(front, key, bound);
            lemma_lt_asymmetric(end, key);
        } else {
            lemma_starts_with_front(key, front);
            let k = key.skip(front.len() as int);
            lemma_lt_common_front(front, k, bound);
            lemma_lt_common_front(front, k, seq![last]);
            assert(!bytes_lt(k, seq![last]));
            assert(bytes_lt(k, bound));
            assert(k.len() > 0);
            if k[0] != last {
                if k[0] == last + 1 {
                    assert(bound.skip(1).len() == 0);
                    assert(!bytes_lt(k.skip(1), bound.skip(1)));
                }
                assert(false);
            }
            assert(key.take(prefix.len() as int) =~= prefix);
        }
    } else {
        lemma_prefix_lt(front, seq![last]);
        if bytes_lt(key, front) {
            lemma_lt_le_transitive(key, front, prefix);
        }
        lemma_no_key_between(front, key);
        lemma_starts_with_front(key, front);
        let k = key.skip(front.len() as int);
        lemma_lt_common_front(front, k, seq![last]);
        assert(!bytes_lt(k, seq![last]));
        assert(k.len() > 0);
        assert(k[0] == 0xFF);
        assert(key.take(prefix.len() as int) =~= prefix);
    }
}

proof fn lemma_all_ff(prefix: Seq<u8>, key: Seq<u8>)
    requires
        after_prefix(prefix) is None,
        !bytes_lt(key, prefix),
    ensures
        starts_with(key, prefix),
    decreases prefix.len(),
{
    if prefix.len() == 0 {
        assert(key.take(0) =~= prefix);
    } else {
        let front = prefix.drop_last();
        let last = prefix.last();
        assert(prefix =~= front + seq![last]);
        lemma_prefix_lt(front, seq![last]);
        if bytes_lt(key, front) {
            lemma_lt_le_transitive(key, front, prefix);
        }
        lemma_all_ff(front, key);
        lemma_starts_with_front(key, front);
        let k = key.skip(front.len() as int);
        lemma_lt_common_front(front, k, seq![last]);
        assert(k.len() > 0);
        assert(k[0] == 0xFF);
        assert(key.take(prefix.len() as int) =~= prefix);
    }
}

/// `after_prefix`, computed.
pub fn prefix_end(prefix: &[u8]) -> (r: Option<Vec<u8>>)
    ensures
        match r {
            Some(end) => after_prefix(prefix@) == Some(end@),
            None => after_prefix(prefix@) is None,
        },
{
    let mut end: Vec<u8> = slice_to_vec(prefix);
    while end.len() > 0
        invariant
            after_prefix(end@) == after_prefix(prefix@),
        decreases end@.len(),
    {
        let n: usize = end.len();
        let last: u8 = end[n - 1];
        let ghost before = end@;
        end.truncate(n - 1);
        assert(end@ =~= before.drop_last());
        if last < 0xFF {
            end.push(last + 1);
            return Some(end);
        }
    }
    None
}

impl KeyRange {
    /// Every key.
    pub fn everything() -> (r: KeyRange)
        ensures
            forall|key: Seq<u8>| r@.has(key),
    {
        KeyRange { start: Vec::new(), end: None }
    }

    /// Every key that begins with `prefix`.
    pub fn prefixed(prefix: &[u8]) -> (r: KeyRange)
        ensures
            r@ == prefix_range(prefix@),
            forall|key: Seq<u8>| r@.has(key) <==> starts_with(key, prefix@),
    {
        let r = KeyRange { start: slice_to_vec(prefix), end: prefix_end(prefix) };
        proof {
            assert(r@ == prefix_range(prefix@));
            assert forall|key: Seq<u8>| r@.has(key) <==> starts_with(key, prefix@) by {
                prefix_range_is_exact(prefix@, key);
            }
        }
        r
    }

    /// Keys in both ranges.
    pub fn intersect(self, other: KeyRange) -> (r: KeyRange)
        ensures
            forall|key: Seq<u8>| r@.has(key) <==> self@.has(key) && other@.has(key),
    {
        let ghost a = self@;
        let ghost b = other@;
        let start_is_other: bool = bytes_less(self.start.as_slice(), other.start.as_slice());
        let start: Vec<u8> = if start_is_other {
            other.start
        } else {
            self.start
        };
        let end: Option<Vec<u8>> = match (self.end, other.end) {
            (Some(x), Some(y)) => if bytes_less(y.as_slice(), x.as_slice()) {
                Some(y)
            } else {
                Some(x)
            },
            (Some(x), None) => Some(x),
            (None, y) => y,
        };
        let r = KeyRange { start, end };
        proof {
            assert forall|key: Seq<u8>| r@.has(key) <==> a.has(key) && b.has(key) by {
                if bytes_lt(a.start, b.start) {
                    if !bytes_lt(key, b.start) && bytes_lt(key, a.start) {
                        lemma_lt_transitive(key, a.start, b.start);
                    }
                } else {
                    lemma_le_is_not_gt(b.start, a.start);
                    if !bytes_lt(key, a.start) && bytes_lt(key, b.start) {
                        lemma_lt_le_transitive(key, b.start, a.start);
                    }
                }
                if a.end is Some && b.end is Some {
                    let x = a.end->Some_0;
                    let y = b.end->Some_0;
                    if bytes_lt(y, x) {
                        if bytes_lt(key, y) {
                            lemma_lt_transitive(key, y, x);
                        }
                    } else {
                        lemma_le_is_not_gt(x, y);
                        if bytes_lt(key, x) {
                            lemma_lt_le_transitive(key, x, y);
                        }
                    }
                }
            }
        }
        r
    }

    /// Whether `key` is in the range.
    pub fn contains(&self, key: &[u8]) -> (r: bool)
        ensures
            r == self@.has(key@),
    {
        if bytes_less(key, self.start.as_slice()) {
            return false;
        }
        match &self.end {
            Some(end) => bytes_less(key, end.as_slice()),
            None => true,
        }
    }

    /// This range among the keys that begin with `prefix`: in a compound
    /// index, a range on one field after equal values in the fields before
    /// it.
    pub fn under(self, prefix: &[u8]) -> (r: KeyRange)
        ensures
            forall|key: Seq<u8>|
                r@.has(key) <==> starts_with(key, prefix@) && self@.has(
                    key.skip(prefix@.len() as int),
                ),
    {
        let ghost inner = self@;
        let mut start: Vec<u8> = slice_to_vec(prefix);
        start.extend_from_slice(self.start.as_slice());
        let end: Option<Vec<u8>> = match self.end {
            Some(end) => {
                let mut bound: Vec<u8> = slice_to_vec(prefix);
                bound.extend_from_slice(end.as_slice());
                Some(bound)
            },
            None => prefix_end(prefix),
        };
        let r = KeyRange { start, end };
        proof {
            let p = prefix@;
            assert(r@.start =~= p + inner.start);
            assert(inner.end is Some ==> r@.end->Some_0 =~= p + inner.end->Some_0);
            assert forall|key: Seq<u8>|
                r@.has(key) <==> starts_with(key, p) && inner.has(key.skip(p.len() as int)) by {
                lemma_prefix_lt(p, inner.start);
                if starts_with(key, p) {
                    lemma_starts_with_front(key, p);
                    let k = key.skip(p.len() as int);
                    lemma_lt_common_front(p, k, inner.start);
                    if inner.end is Some {
                        lemma_lt_common_front(p, k, inner.end->Some_0);
                    } else {
                        prefix_range_is_exact(p, key);
                    }
                } else if r@.has(key) {
                    if bytes_lt(key, p) {
                        lemma_lt_le_transitive(key, p, p + inner.start);
                    }
                    if inner.end is Some {
                        lemma_past_prefix(p, key, inner.end->Some_0);
                        lemma_lt_asymmetric(p + inner.end->Some_0, key);
                    } else {
                        prefix_range_is_exact(p, key);
                    }
                }
            }
        }
        r
    }
}

impl Clone for KeyRange {
    fn clone(&self) -> (r: KeyRange)
        ensures
            r@ == self@,
    {
        KeyRange {
            start: slice_to_vec(self.start.as_slice()),
            end: match &self.end {
                Some(end) => Some(slice_to_vec(end.as_slice())),
                None => None,
            },
        }
    }
}

/// The keys of values of the type whose tag `encoded` begins with.
pub open spec fn type_range(encoded: Seq<u8>) -> RangeModel {
    prefix_range(encoded.take(1))
}

/// The keys a document can have if its field compares true against the
/// value encoded as `encoded`.
pub open spec fn op_range(op: Op, encoded: Seq<u8>) -> Option<RangeModel> {
    match op {
        Op::Eq => Some(prefix_range(encoded)),
        Op::Gt | Op::Gte => Some(RangeModel { start: encoded, end: type_range(encoded).end }),
        Op::Lt | Op::Lte => Some(
            RangeModel { start: type_range(encoded).start, end: prefix_range(encoded).end },
        ),
        Op::Ne | Op::Contains => None,
    }
}

/// Every key a document can have if its field `op`-compares true against
/// `value`, or a superset of them; `None` if no range describes it (`Ne`,
/// `Contains`) or `value` isn't an indexed type. Bounds are inclusive of
/// `value`'s own encoding even for `Lt`/`Gt`: different values can share an
/// encoding.
pub fn range_for(op: &Op, value: &Document) -> (r: Option<KeyRange>)
    ensures
        match r {
            Some(range) => value_key(value@, 1) matches Some(encoded) && op_range(*op, encoded)
                == Some(range@),
            None => value_key(value@, 1) is None || op_range(
                *op,
                value_key(value@, 1)->Some_0,
            ) is None,
        },
{
    range_for_in(op, value, 1)
}

/// `range_for` on one of a compound key's `fields` values, relative to where
/// that value starts: strings are cut as the keys cut them.
pub fn range_for_in(op: &Op, value: &Document, fields: usize) -> (r: Option<KeyRange>)
    requires
        1 <= fields <= MAX_COMPOUND_FIELDS,
    ensures
        match r {
            Some(range) => value_key(value@, fields as int) matches Some(encoded) && op_range(
                *op,
                encoded,
            ) == Some(range@),
            None => value_key(value@, fields as int) is None || op_range(
                *op,
                value_key(value@, fields as int)->Some_0,
            ) is None,
        },
{
    let encoded: Vec<u8> = match encode_value_in(value, fields) {
        Some(encoded) => encoded,
        None => return None,
    };
    let ghost e = encoded@;
    proof {
        super::key::lemma_value_key_nonempty(value@, fields as int);
    }
    let tag: &[u8] = slice_subrange(encoded.as_slice(), 0, 1);
    assert(tag@ =~= e.take(1));
    let same_type = KeyRange::prefixed(tag);
    let this_value = KeyRange::prefixed(encoded.as_slice());
    match op {
        Op::Eq => Some(this_value),
        Op::Gt | Op::Gte => Some(KeyRange { start: encoded, end: same_type.end }),
        Op::Lt | Op::Lte => Some(KeyRange { start: same_type.start, end: this_value.end }),
        Op::Ne | Op::Contains => None,
    }
}

/// A range covers what the filter would match: the key of every value that
/// compares true, with whatever follows it in the key, is in it.
pub proof fn ranges_cover_the_matches(
    op: Op,
    held: DocModel,
    value: DocModel,
    fields: int,
    rest: Seq<u8>,
)
    requires
        1 <= fields <= MAX_COMPOUND_FIELDS,
        op_holds(op, held, value),
        op != Op::Ne,
    ensures
        value_key(value, fields) is Some,
        value_key(held, fields) is Some,
        op_range(op, value_key(value, fields)->Some_0)->Some_0.has(
            value_key(held, fields)->Some_0 + rest,
        ),
{
    lemma_related_flips(held, value);
    let greater = related(held, value) == Some(Relation::Greater);
    if greater {
        key_order_is_filter_order(value, held, fields);
    } else {
        key_order_is_filter_order(held, value, fields);
    }
    if related(held, value) == Some(Relation::Equal) {
        key_order_is_filter_order(value, held, fields);
    }
    super::key::lemma_value_key_nonempty(value, fields);
    super::key::lemma_value_key_nonempty(held, fields);
    let e = value_key(value, fields)->Some_0;
    let h = value_key(held, fields)->Some_0;
    let key = h + rest;
    if related(held, value) == Some(Relation::Equal) {
        lemma_le_is_not_gt(h, e);
        lemma_le_is_not_gt(e, h);
        lemma_lt_total(h, e);
        assert(h == e);
    }
    // The type's range.
    let tag = e.take(1);
    assert(key.take(1) =~= tag) by {
        assert(key[0] == h[0]);
    }
    prefix_range_is_exact(tag, key);
    if op == Op::Eq {
        assert(key.take(e.len() as int) =~= e);
        prefix_range_is_exact(e, key);
    } else if op == Op::Gt || op == Op::Gte {
        lemma_prefix_lt(h, rest);
        lemma_le_transitive(e, h, key);
        lemma_le_is_not_gt(e, key);
    } else {
        // Not past every key that begins with the value's encoding.
        if after_prefix(e) is Some {
            if h == e {
                lemma_before_after_prefix(e, rest);
            } else {
                super::key::value_keys_are_prefix_free(held, value, fields);
                lemma_lt_asymmetric(h, e);
                lemma_lt_extends(h, e, rest, seq![]);
                lemma_before_after_prefix(e, seq![]);
                lemma_lt_transitive(key, e + Seq::<u8>::empty(), after_prefix(e)->Some_0);
            }
        }
    }
}

/// Turning a comparison around turns its answer around.
pub proof fn lemma_related_flips(a: DocModel, b: DocModel)
    ensures
        related(b, a) == (match related(a, b) {
            Some(Relation::Less) => Some(Relation::Greater),
            Some(Relation::Equal) => Some(Relation::Equal),
            Some(Relation::Greater) => Some(Relation::Less),
            None => None,
        }),
{
    match (a, b) {
        (DocModel::String(x), DocModel::String(y)) => {
            let s = vstd::utf8::encode_utf8(x);
            let t = vstd::utf8::encode_utf8(y);
            lemma_lt_total(s, t);
            if s == t {
                crate::text::lemma_utf8_injective(x, y);
            }
            if bytes_lt(s, t) {
                lemma_lt_asymmetric(s, t);
            }
        },
        _ => {},
    }
}

/// A range of an ordering comparison stays within the value's type.
pub proof fn ranges_stay_within_their_type(op: Op, encoded: Seq<u8>, key: Seq<u8>)
    requires
        encoded.len() > 0,
        op_range(op, encoded) matches Some(range) && range.has(key),
    ensures
        starts_with(key, encoded.take(1)),
{
    let tag = encoded.take(1);
    assert(encoded =~= tag + encoded.skip(1));
    lemma_prefix_lt(tag, encoded.skip(1));
    prefix_range_is_exact(tag, key);
    prefix_range_is_exact(encoded, key);
    if op == Op::Eq {
        assert(key.take(1) =~= encoded.take(1)) by {
            assert(key.take(encoded.len() as int)[0] == key[0]);
        }
    } else if op == Op::Gt || op == Op::Gte {
        if bytes_lt(key, tag) {
            lemma_lt_le_transitive(key, tag, encoded);
        }
    } else {
        // Before the first key past the encoding: not past the type's.
        if after_prefix(encoded) is Some {
            if !starts_with(key, encoded) {
                if !bytes_lt(key, encoded) {
                    lemma_no_key_between(encoded, key);
                }
                if !starts_with(key, tag) {
                    lemma_past_prefix(tag, key, encoded.skip(1));
                    lemma_lt_asymmetric(tag + encoded.skip(1), key);
                }
            } else {
                assert(key.take(1) =~= encoded.take(1)) by {
                    assert(key.take(encoded.len() as int)[0] == key[0]);
                }
            }
        } else {
            lemma_all_ff_front(encoded);
        }
    }
}

proof fn lemma_all_ff_front(encoded: Seq<u8>)
    requires
        encoded.len() > 0,
        after_prefix(encoded) is None,
    ensures
        after_prefix(encoded.take(1)) is None,
    decreases encoded.len(),
{
    if encoded.len() == 1 {
        assert(encoded.take(1) =~= encoded);
    } else {
        lemma_all_ff_front(encoded.drop_last());
        assert(encoded.drop_last().take(1) =~= encoded.take(1));
    }
}

} // verus!

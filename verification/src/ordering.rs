//! Which index can be read in the order of a sort, and why its order is the
//! sort's.

use crate::catalog::entry::IndexModel;
use crate::catalog::{index_models, IndexMeta};
use crate::document::DocModel;
use crate::filter::{
    condition_models, keys_related, meets, meets_all, sort_key, sorted_as, unordered, value_meets,
    Condition, ConditionModel, Filter, FilterModel, SortOrder,
};
use crate::index::key::{
    compound_part, joined_parts, key_order_is_filter_order, keys_sort_field_by_field,
    lemma_number_order, lemma_single_value, parts_are_prefix_free, value_key, values_key,
    MAX_COMPOUND_FIELDS, TAG_OTHER,
};
use crate::index::range::{KeyRange, RangeModel};
use crate::number::float_of_int;
use crate::order::{
    bytes_lt, lemma_le_is_not_gt, lemma_lt_asymmetric, lemma_lt_irreflexive, lemma_lt_total,
    starts_with,
};
use crate::path::{is_multi, is_plain, lemma_plain_path, path_steps, starless, value_of, values_of};
use crate::planner::{
    fixed_front, front_values, is_null, lemma_fixed_front, lemma_plain_key, plain_range,
    plain_score, planned_all, range_hits,
};
use crate::query::{related, Op, Relation};
use crate::secondary::{doc_has_key, field_values_of, value_gives};
use crate::text::str_equal;
use vstd::prelude::*;

verus! {

/// The number a value is compared as.
spec fn number_bits(m: DocModel) -> u64 {
    match m {
        DocModel::Int(n) => float_of_int(n),
        DocModel::Float(f) => f,
        _ => 0,
    }
}

/// Values whose keys differ are in the order of their keys, those without an
/// order last; descending, those with one are in the opposite order.
pub proof fn key_order_is_sort_order(x: DocModel, y: DocModel, fields: int)
    requires
        1 <= fields <= MAX_COMPOUND_FIELDS,
        bytes_lt(compound_part(x, fields), compound_part(y, fields)),
    ensures
        sorted_as(SortOrder::Asc, x, y) == Relation::Less,
        !unordered(x),
        !unordered(y) ==> sorted_as(SortOrder::Desc, y, x) == Relation::Less,
{
    let p = compound_part(x, fields);
    let q = compound_part(y, fields);
    lemma_lt_irreflexive(p);
    assert(value_key(x, fields) is None <==> unordered(x));
    assert(value_key(y, fields) is None <==> unordered(y));
    if unordered(x) {
        assert(p[0] == TAG_OTHER);
        if !unordered(y) {
            assert(q[0] != TAG_OTHER && q.len() > 0);
        }
    } else if !unordered(y) {
        let a = sort_key(x)->Some_0;
        let b = sort_key(y)->Some_0;
        assert(p[0] == a.kind && q[0] == b.kind);
        if a.kind == b.kind {
            if a.kind == 2 {
                let f = number_bits(x);
                let g = number_bits(y);
                if a.number >= b.number {
                    lemma_number_order(g, f);
                    lemma_le_is_not_gt(q, p);
                }
            } else if a.kind == 3 {
                lemma_lt_total(a.text, b.text);
                if bytes_lt(b.text, a.text) {
                    lemma_lt_irreflexive(a.text);
                    lemma_lt_asymmetric(b.text, a.text);
                    assert(related(y, x) == Some(Relation::Less));
                    key_order_is_filter_order(y, x, fields);
                    lemma_le_is_not_gt(q, p);
                } else if a.text == b.text {
                    assert(p == q);
                }
            } else if a.kind == 1 {
                if a.number > b.number {
                    assert(related(y, x) == Some(Relation::Less));
                    key_order_is_filter_order(y, x, fields);
                    lemma_le_is_not_gt(q, p);
                }
            }
        }
        assert(keys_related(a, b) == Relation::Less);
        assert(keys_related(b, a) == Relation::Greater) by {
            if bytes_lt(a.text, b.text) {
                lemma_lt_asymmetric(a.text, b.text);
            }
        }
    }
}

/// Keys that begin with the same values' encodings have equal encodings
/// there.
pub proof fn lemma_front_parts(
    found: Seq<DocModel>,
    values: Seq<DocModel>,
    fields: int,
    tail: Seq<u8>,
)
    requires
        values.len() <= found.len(),
        starts_with(joined_parts(found, fields) + tail, joined_parts(values, fields)),
    ensures
        forall|j: int|
            0 <= j < values.len() ==> compound_part(#[trigger] found[j], fields) == compound_part(
                values[j],
                fields,
            ),
    decreases values.len(),
{
    if values.len() > 0 {
        let p = compound_part(found[0], fields);
        let q = compound_part(values[0], fields);
        let more = joined_parts(found.skip(1), fields) + tail;
        let rest = joined_parts(values.skip(1), fields);
        let whole = joined_parts(found, fields) + tail;
        let front = joined_parts(values, fields);
        assert(whole =~= p + more);
        assert(front == q + rest);
        assert(whole.take(p.len() as int) =~= p);
        assert(whole.take(q.len() as int) =~= q) by {
            assert(whole.take(front.len() as int).take(q.len() as int) =~= whole.take(
                q.len() as int,
            ));
            assert(front.take(q.len() as int) =~= q);
        }
        if p.len() <= q.len() {
            assert(q.take(p.len() as int) =~= whole.take(p.len() as int));
            assert(starts_with(q, p));
        } else {
            assert(p.take(q.len() as int) =~= whole.take(q.len() as int));
            assert(starts_with(p, q));
        }
        parts_are_prefix_free(found[0], values[0], fields);
        assert(p == q);
        assert(more.take(rest.len() as int) =~= rest) by {
            assert(whole.take(front.len() as int).skip(q.len() as int) =~= more.take(
                rest.len() as int,
            ));
            assert(front.skip(q.len() as int) =~= rest);
        }
        lemma_front_parts(found.skip(1), values.skip(1), fields, tail);
        assert forall|j: int| 0 <= j < values.len() implies compound_part(
            #[trigger] found[j],
            fields,
        ) == compound_part(values[j], fields) by {
            if j > 0 {
                assert(found.skip(1)[j - 1] == found[j]);
                assert(values.skip(1)[j - 1] == values[j]);
            }
        }
    }
}

/// In an index on plain paths a document has one key.
pub proof fn lemma_only_key(m: DocModel, index: IndexModel, id: Seq<u8>, key: Seq<u8>)
    requires
        doc_has_key(m, index, id, key),
        1 <= index.fields.len() <= MAX_COMPOUND_FIELDS,
        index.fields.len() == 1 ==> starless(path_steps(index.fields[0])),
    ensures
        key == values_key(field_values_of(m, index)) + id,
        index.fields.len() == 1 ==> !unordered(field_values_of(m, index)[0]),
{
    if index.fields.len() == 1 {
        reveal(is_plain);
        lemma_plain_path(m, path_steps(index.fields[0]));
        let all = values_of(m, index.fields[0]);
        let i = choose|i: int| 0 <= i < all.len() && value_gives(index, #[trigger] all[i], id, key);
        assert(i == 0);
        let found = field_values_of(m, index);
        assert(found =~= seq![all[0]]);
        lemma_single_value(all[0]);
    }
}

/// The order of two keys that begin with the same values is the order of what
/// comes next.
pub proof fn lemma_next_parts(
    a: Seq<DocModel>,
    b: Seq<DocModel>,
    values: Seq<DocModel>,
    fields: int,
    x: Seq<u8>,
    y: Seq<u8>,
)
    requires
        values.len() < a.len(),
        values.len() < b.len(),
        starts_with(joined_parts(a, fields) + x, joined_parts(values, fields)),
        starts_with(joined_parts(b, fields) + y, joined_parts(values, fields)),
        bytes_lt(joined_parts(a, fields) + x, joined_parts(b, fields) + y),
    ensures
        ({
            let k = values.len() as int;
            compound_part(a[k], fields) == compound_part(b[k], fields) || bytes_lt(
                compound_part(a[k], fields),
                compound_part(b[k], fields),
            )
        }),
{
    let k = values.len() as int;
    lemma_front_parts(a, values, fields, x);
    lemma_front_parts(b, values, fields, y);
    lemma_lt_total(compound_part(a[k], fields), compound_part(b[k], fields));
    if bytes_lt(compound_part(b[k], fields), compound_part(a[k], fields)) {
        assert forall|i: int| 0 <= i < k implies compound_part(#[trigger] b[i], fields)
            == compound_part(a[i], fields) by {
            assert(compound_part(a[i], fields) == compound_part(values[i], fields));
        }
        keys_sort_field_by_field(b, a, k, fields, y, x);
        lemma_lt_asymmetric(joined_parts(a, fields) + x, joined_parts(b, fields) + y);
    }
}

/// How a filter's sort can be read from an index: the entries in `range` all
/// have the same values in their first `fixed` fields, and the next field is
/// the first to sort by.
pub struct OrderedRead {
    /// The index's place in the list.
    pub index: usize,
    pub fixed: usize,
    pub range: KeyRange,
    /// Whether the range holds every match. If not, it lacks those whose value
    /// has no order.
    pub whole: bool,
    /// Whether a condition narrows the range.
    pub narrowed: bool,
    pub values: Ghost<Seq<DocModel>>,
}

/// Whether reading an index in this way serves a filter.
pub open spec fn serves(filter: FilterModel, index: IndexModel, read: OrderedRead) -> bool {
    let n = index.fields.len() as int;
    &&& filter.sort.len() > 0
    &&& filter.limit is Some
    &&& 1 <= n <= MAX_COMPOUND_FIELDS
    &&& n == 1 ==> starless(path_steps(index.fields[0]))
    &&& read.fixed == read.values@.len() < n
    &&& !read.whole ==> n == 1
    &&& index.fields[read.fixed as int] == filter.sort[0].field
    &&& forall|key: Seq<u8>| #[trigger]
        read.range@.has(key) ==> starts_with(key, joined_parts(read.values@, n))
    &&& forall|m: DocModel, id: Seq<u8>| #[trigger]
        in_reach(filter, index, read, m, id) ==> doc_has_key(
            m,
            index,
            id,
            values_key(field_values_of(m, index)) + id,
        ) && read.range@.has(values_key(field_values_of(m, index)) + id)
}

/// Whether a document is a match that the range should hold.
pub open spec fn in_reach(
    filter: FilterModel,
    index: IndexModel,
    read: OrderedRead,
    m: DocModel,
    id: Seq<u8>,
) -> bool {
    &&& meets_all(filter.conditions, m)
    &&& id.len() == 16
    &&& read.whole || !unordered(value_of(m, filter.sort[0].field))
}

/// Whether an index on one field is in the order of a sort without
/// conditions: on the first field to sort by, a plain one.
pub open spec fn in_sort_order(filter: FilterModel, index: IndexModel) -> bool {
    &&& filter.sort.len() > 0
    &&& filter.limit is Some
    &&& index.fields == seq![filter.sort[0].field]
    &&& starless(path_steps(index.fields[0]))
    &&& !index.sparse
    &&& filter.conditions.len() == 0
}

/// Whether none of these is null.
spec fn no_null(found: Seq<DocModel>) -> bool {
    forall|k: int| 0 <= k < found.len() ==> (#[trigger] found[k]) != DocModel::Null
}

/// Whether a condition says that what a path leads to is not null.
pub open spec fn says_not_null(conditions: Seq<ConditionModel>, field: Seq<char>) -> bool {
    exists|i: int|
        0 <= i < conditions.len() && (#[trigger] conditions[i]) == (ConditionModel::Compare {
            field,
            op: Op::Ne,
            value: DocModel::Null,
        })
}

/// How an index can be read for a filter's sort: how many of its fields are
/// fixed, and whether a condition narrows it; `None` if it can't. The field
/// after those fixed is the first to sort by, and the index lacks no match, or
/// only those without an order.
pub open spec fn order_read(filter: FilterModel, index: IndexModel) -> Option<(int, bool)> {
    let n = index.fields.len() as int;
    let fixed = front_values(filter.conditions, index, 0).len() as int;
    let narrowed = plain_score(filter.conditions, index) > 0;
    if filter.sort.len() > 0 && filter.limit is Some && 1 <= n <= MAX_COMPOUND_FIELDS && fixed < n
        && index.fields[fixed] == filter.sort[0].field && !(n == 1 && !starless(
        path_steps(index.fields[0]),
    )) && !(index.sparse && fixed == 0 && !narrowed && !(n == 1 && says_not_null(
        filter.conditions,
        index.fields[0],
    ))) {
        Some((fixed, narrowed))
    } else {
        None
    }
}

/// Whether an index can be read for a sort, has the most fields fixed of the
/// first `n`, and is the first of equals.
pub open spec fn orders_best(
    filter: FilterModel,
    indexes: Seq<IndexModel>,
    k: int,
    n: int,
) -> bool {
    &&& order_read(filter, indexes[k]) is Some
    &&& forall|j: int|
        0 <= j < n ==> (order_read(filter, #[trigger] indexes[j]) matches Some((fixed, _))
            ==> fixed <= order_read(filter, indexes[k])->Some_0.0)
    &&& forall|j: int|
        0 <= j < k ==> (order_read(filter, #[trigger] indexes[j]) matches Some((fixed, _))
            ==> fixed < order_read(filter, indexes[k])->Some_0.0)
}

/// Which index a filter's sort is read from: the one with the most fields
/// fixed, but none that the conditions don't narrow where other indexes can
/// find the matches.
pub open spec fn order_place(filter: FilterModel, indexes: Seq<IndexModel>) -> Option<int> {
    if exists|k: int| 0 <= k < indexes.len() && order_read(filter, #[trigger] indexes[k]) is Some {
        let k = choose|k: int|
            0 <= k < indexes.len() && #[trigger] orders_best(
                filter,
                indexes,
                k,
                indexes.len() as int,
            );
        if order_read(filter, indexes[k]) == Some((0int, false)) && filter.conditions.len() > 0
            && planned_all(filter.conditions, indexes) is Some {
            None
        } else {
            Some(k)
        }
    } else {
        None
    }
}

proof fn lemma_order_place(filter: FilterModel, indexes: Seq<IndexModel>, k: int)
    requires
        0 <= k < indexes.len(),
        orders_best(filter, indexes, k, indexes.len() as int),
    ensures
        order_place(filter, indexes) == (if order_read(filter, indexes[k]) == Some((0int, false))
            && filter.conditions.len() > 0 && planned_all(filter.conditions, indexes) is Some {
            None
        } else {
            Some(k)
        }),
{
    assert(order_read(filter, indexes[k]) is Some);
    let other = choose|other: int|
        0 <= other < indexes.len() && #[trigger] orders_best(
            filter,
            indexes,
            other,
            indexes.len() as int,
        );
    assert(order_read(filter, indexes[other]) is Some);
}

/// Whether a condition rules out that what a path leads to is null.
fn rules_out_null(conditions: &Vec<Condition>, field: &str) -> (r: bool)
    ensures
        r == says_not_null(condition_models(conditions@), field@),
        r ==> forall|m: DocModel| #[trigger]
            meets_all(condition_models(conditions@), m) ==> no_null(values_of(m, field@)),
{
    let ghost models = condition_models(conditions@);
    let n: usize = conditions.len();
    for i in 0..n
        invariant
            n == conditions@.len(),
            models == condition_models(conditions@),
            forall|j: int|
                0 <= j < i ==> (#[trigger] models[j]) != (ConditionModel::Compare {
                    field: field@,
                    op: Op::Ne,
                    value: DocModel::Null,
                }),
    {
        assert(models[i as int] == conditions@[i as int]@);
        match &conditions[i] {
            Condition::Compare { field: on, op: Op::Ne, value } => {
                if str_equal(on.as_str(), field) && is_null(value) {
                    proof {
                        assert forall|m: DocModel| #[trigger] meets_all(models, m) implies no_null(
                            values_of(m, field@),
                        ) by {
                            assert(meets(models[i as int], m));
                            let found = values_of(m, field@);
                            assert forall|k: int| 0 <= k < found.len() implies (
                            #[trigger] found[k]) != DocModel::Null by {
                                assert(value_meets(Op::Ne, found[k], DocModel::Null));
                            }
                        }
                    }
                    return true;
                }
            },
            _ => {},
        }
    }
    false
}

/// How one index serves a filter's sort, if it does.
fn ordered_read(filter: &Filter, index: &IndexMeta, at: usize) -> (r: Option<OrderedRead>)
    ensures
        r matches Some(read) ==> read.index == at && serves(filter@, index@, read),
        in_sort_order(filter@, index@) ==> r is Some,
        order_read(filter@, index@) == (match r {
            Some(read) => Some((read.fixed as int, read.narrowed)),
            None => None,
        }),
{
    let n: usize = index.fields.len();
    assert(index@.fields.len() == n);
    assert(filter@.sort.len() == filter.sort@.len());
    if filter.sort.len() == 0 || filter.limit.is_none() || n < 1 || n > MAX_COMPOUND_FIELDS {
        return None;
    }
    let (front, fixed, values) = fixed_front(&filter.conditions, index);
    if fixed >= n {
        return None;
    }
    let field: &str = index.fields[fixed].as_str();
    assert(index@.fields[fixed as int] == field@);
    assert(filter@.sort[0].field == filter.sort@[0].field@);
    if !str_equal(field, filter.sort[0].field.as_str()) || (n == 1 && is_multi(field)) {
        return None;
    }
    let ghost conditions = condition_models(filter.conditions@);
    let prefixed = KeyRange::prefixed(front.as_slice());
    let ghost outer = prefixed@;
    let ghost mut narrow: Option<RangeModel> = None;
    let (range, narrowed) = match plain_range(&filter.conditions, index) {
        Some((_, narrower)) => {
            proof {
                narrow = Some(narrower@);
            }
            (prefixed.intersect(narrower), true)
        },
        None => (prefixed, false),
    };
    // A sparse index lacks the documents without a value, unless a condition
    // rules them out.
    if index.sparse && fixed == 0 && !narrowed && !(n == 1 && rules_out_null(
        &filter.conditions,
        field,
    )) {
        return None;
    }
    let read = OrderedRead {
        index: at,
        fixed,
        range,
        whole: narrowed || n > 1,
        narrowed,
        values,
    };
    proof {
        assert(filter@.sort[0].field == filter.sort@[0].field@);
        assert(index@.fields[fixed as int] == field@);
        assert forall|m: DocModel, id: Seq<u8>| #[trigger]
            in_reach(filter@, index@, read, m, id) implies doc_has_key(
            m,
            index@,
            id,
            values_key(field_values_of(m, index@)) + id,
        ) && read.range@.has(values_key(field_values_of(m, index@)) + id) by {
            let found = field_values_of(m, index@);
            let key = values_key(found) + id;
            lemma_fixed_front(conditions, index@, values@, m);
            assert(key.take(front@.len() as int) =~= front@);
            assert(outer.has(key));
            match narrow {
                Some(inner) => {
                    assert(meets_all(conditions, m));
                    assert(range_hits(m, index@, id, inner));
                    let other = choose|other: Seq<u8>| #[trigger]
                        doc_has_key(m, index@, id, other) && inner.has(other);
                    lemma_only_key(m, index@, id, other);
                },
                None => {
                    assert(found[fixed as int] == value_of(m, field@));
                    if index.sparse && fixed == 0 {
                        reveal(is_plain);
                        lemma_plain_path(m, path_steps(field@));
                        assert(no_null(values_of(m, field@)));
                        assert(values_of(m, field@)[0] == found[0]);
                    }
                    lemma_plain_key(m, index@, id, 0);
                },
            }
        }
    }
    Some(read)
}

impl Filter {
    /// How the sort can be read from one of a collection's indexes: with a
    /// limit, reading in order stops early. Of several, the one with the most
    /// values fixed; but none that the conditions don't narrow where another
    /// index can find the matches.
    pub fn index_order(&self, indexes: &[IndexMeta]) -> (r: Option<OrderedRead>)
        ensures
            r matches Some(read) ==> read.index < indexes@.len() && serves(
                self@,
                index_models(indexes@)[read.index as int],
                read,
            ),
            (exists|k: int|
                0 <= k < indexes@.len() && in_sort_order(
                    self@,
                    #[trigger] index_models(indexes@)[k],
                )) ==> r is Some,
            order_place(self@, index_models(indexes@)) == (match r {
                Some(read) => Some(read.index as int),
                None => None,
            }),
    {
        let n: usize = indexes.len();
        let ghost models = index_models(indexes@);
        let mut best: Option<OrderedRead> = None;
        for i in 0..n
            invariant
                n == indexes@.len(),
                best matches Some(read) ==> read.index < indexes@.len() && serves(
                    self@,
                    index_models(indexes@)[read.index as int],
                    read,
                ),
                best is None ==> forall|k: int|
                    0 <= k < i ==> !in_sort_order(self@, #[trigger] index_models(indexes@)[k]),
                models == index_models(indexes@),
                best is None ==> forall|k: int|
                    0 <= k < i ==> order_read(self@, #[trigger] models[k]) is None,
                best matches Some(read) ==> read.index < i && orders_best(
                    self@,
                    models,
                    read.index as int,
                    i as int,
                ) && order_read(self@, models[read.index as int]) == Some(
                    (read.fixed as int, read.narrowed),
                ),
        {
            assert(index_models(indexes@)[i as int] == indexes@[i as int]@);
            match ordered_read(self, &indexes[i], i) {
                Some(read) => {
                    let better: bool = match &best {
                        Some(so_far) => read.fixed > so_far.fixed,
                        None => true,
                    };
                    if better {
                        best = Some(read);
                    }
                },
                None => {},
            }
        }
        proof {
            assert(self@.conditions.len() == self.conditions@.len());
            if best is Some {
                lemma_order_place(self@, models, best->Some_0.index as int);
            }
        }
        let poor: bool = match &best {
            Some(read) => read.fixed == 0 && !read.narrowed,
            None => false,
        };
        if poor && self.conditions.len() > 0 && self.index_ranges(indexes).is_some() {
            return None;
        }
        best
    }
}

} // verus!

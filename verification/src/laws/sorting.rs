//! How a sort orders documents.

use super::comparing::{is_number, values_of_a_kind_compare};
use super::numbers::{lemma_scaled_rank, small_integers_are_floats};
use crate::document::DocModel;
use crate::filter::{
    comes_before, order_of, sort_order_is_strict, sorted_as, value_meets, FilterModel, Found,
    SortModel, SortOrder,
};
use crate::number::{float_of_int, nan, rank, rounding_keeps_order};
use crate::order::{bytes_lt, lemma_lt_asymmetric, lemma_lt_irreflexive};
use crate::path::value_of;
use crate::query::{Op, Relation};
use vstd::arithmetic::power2::{lemma_pow2_pos, pow2};
use vstd::prelude::*;
use vstd::utf8::encode_utf8;

verus! {

/// How two documents compare in one field of a sort.
pub open spec fn in_field(sort: Seq<SortModel>, k: int, a: DocModel, b: DocModel) -> Relation {
    sorted_as(sort[k].order, value_of(a, sort[k].field), value_of(b, sort[k].field))
}

/// The first field in which two documents differ decides, in its own direction,
/// whichever field of the sort it is and whatever their ids.
pub proof fn the_first_field_that_differs_decides(
    sort: Seq<SortModel>,
    k: int,
    x: Found,
    y: Found,
)
    requires
        0 <= k < sort.len(),
        forall|j: int| 0 <= j < k ==> #[trigger] in_field(sort, j, x.1, y.1) == Relation::Equal,
        in_field(sort, k, x.1, y.1) != Relation::Equal,
    ensures
        order_of(sort, x.1, y.1) == in_field(sort, k, x.1, y.1),
        comes_before(sort, x, y) <==> in_field(sort, k, x.1, y.1) == Relation::Less,
        in_field(sort, k, x.1, y.1) == Relation::Less ==> comes_before(sort, x, y)
            && !comes_before(sort, y, x),
{
    lemma_decides(sort, k, x.1, y.1);
    sort_order_is_strict(sort, x, y, y);
}

proof fn lemma_decides(sort: Seq<SortModel>, k: int, a: DocModel, b: DocModel)
    requires
        0 <= k < sort.len(),
        forall|j: int| 0 <= j < k ==> #[trigger] in_field(sort, j, a, b) == Relation::Equal,
        in_field(sort, k, a, b) != Relation::Equal,
    ensures
        order_of(sort, a, b) == in_field(sort, k, a, b),
    decreases sort.len(),
{
    if k > 0 {
        let rest = sort.skip(1);
        assert(in_field(sort, 0, a, b) == Relation::Equal);
        assert forall|j: int| 0 <= j < k - 1 implies #[trigger] in_field(rest, j, a, b)
            == Relation::Equal by {
            assert(rest[j] == sort[j + 1]);
            assert(in_field(sort, j + 1, a, b) == Relation::Equal);
        }
        assert(rest[k - 1] == sort[k]);
        lemma_decides(rest, k - 1, a, b);
    } else {
        assert(in_field(sort, 0, a, b) != Relation::Equal);
    }
}

/// Documents that differ in no field of a sort come in the order of their ids.
pub proof fn without_a_difference_ids_decide(sort: Seq<SortModel>, x: Found, y: Found)
    requires
        forall|j: int|
            0 <= j < sort.len() ==> #[trigger] in_field(sort, j, x.1, y.1) == Relation::Equal,
    ensures
        order_of(sort, x.1, y.1) == Relation::Equal,
        comes_before(sort, x, y) <==> bytes_lt(x.0, y.0),
{
    lemma_all_equal(sort, x.1, y.1);
}

proof fn lemma_all_equal(sort: Seq<SortModel>, a: DocModel, b: DocModel)
    requires
        forall|j: int| 0 <= j < sort.len() ==> #[trigger] in_field(sort, j, a, b) == Relation::Equal,
    ensures
        order_of(sort, a, b) == Relation::Equal,
    decreases sort.len(),
{
    if sort.len() > 0 {
        let rest = sort.skip(1);
        assert(in_field(sort, 0, a, b) == Relation::Equal);
        assert forall|j: int| 0 <= j < rest.len() implies #[trigger] in_field(rest, j, a, b)
            == Relation::Equal by {
            assert(rest[j] == sort[j + 1]);
            assert(in_field(sort, j + 1, a, b) == Relation::Equal);
        }
        lemma_all_equal(rest, a, b);
    }
}

/// Another, less important field orders only what the others leave equal.
pub proof fn one_more_field_orders_what_was_equal(
    sort: Seq<SortModel>,
    last: SortModel,
    a: DocModel,
    b: DocModel,
)
    ensures
        order_of(sort.push(last), a, b) == if order_of(sort, a, b) == Relation::Equal {
            sorted_as(last.order, value_of(a, last.field), value_of(b, last.field))
        } else {
            order_of(sort, a, b)
        },
    decreases sort.len(),
{
    let more = sort.push(last);
    if sort.len() > 0 {
        assert(more.skip(1) =~= sort.skip(1).push(last));
        assert(more[0] == sort[0]);
        one_more_field_orders_what_was_equal(sort.skip(1), last, a, b);
    } else {
        assert(more[0] == last);
        assert(more.skip(1).len() == 0);
        assert(order_of(more.skip(1), a, b) == Relation::Equal);
    }
}

/// A filter that is to sort by one more field sorts by it last, and is else as
/// it was.
pub proof fn a_filter_sorts_by_one_more_field(
    f: FilterModel,
    last: SortModel,
    a: DocModel,
    b: DocModel,
)
    ensures
        order_of(f.then_by(last).sort, a, b) == if order_of(f.sort, a, b) == Relation::Equal {
            sorted_as(last.order, value_of(a, last.field), value_of(b, last.field))
        } else {
            order_of(f.sort, a, b)
        },
        f.then_by(last).conditions == f.conditions,
        f.then_by(last).limit == f.limit,
{
    one_more_field_orders_what_was_equal(f.sort, last, a, b);
}

/// Where a value stands among those of other kinds: null, booleans, numbers,
/// texts; then all that has no order.
pub open spec fn standing(m: DocModel) -> int {
    match m {
        DocModel::Null => 0,
        DocModel::Bool(_) => 1,
        DocModel::String(_) => 3,
        _ => if is_number(m) {
            2
        } else {
            4
        },
    }
}

/// Values of different kinds come kind by kind, and the other way round if the
/// sort descends; but what has no order comes last in either direction.
pub proof fn kinds_come_one_after_the_other(x: DocModel, y: DocModel)
    requires
        standing(x) < standing(y),
    ensures
        sorted_as(SortOrder::Asc, x, y) == Relation::Less,
        sorted_as(SortOrder::Asc, y, x) == Relation::Greater,
        standing(y) < 4 ==> sorted_as(SortOrder::Desc, x, y) == Relation::Greater,
        standing(y) < 4 ==> sorted_as(SortOrder::Desc, y, x) == Relation::Less,
        standing(y) == 4 ==> sorted_as(SortOrder::Desc, x, y) == Relation::Less,
        standing(y) == 4 ==> sorted_as(SortOrder::Desc, y, x) == Relation::Greater,
{
    lemma_no_nan(x);
    lemma_no_nan(y);
}

proof fn lemma_no_nan(m: DocModel)
    ensures
        m matches DocModel::Int(n) ==> !nan(float_of_int(n)),
{
    match m {
        DocModel::Int(n) => {
            rounding_keeps_order(n, n);
        },
        _ => {},
    }
}

/// Values without an order are as good as equal.
pub proof fn what_has_no_order_is_equal(order: SortOrder, x: DocModel, y: DocModel)
    requires
        standing(x) == 4,
        standing(y) == 4,
    ensures
        sorted_as(order, x, y) == Relation::Equal,
{
}

/// Within a kind, a sort goes by the order of a filter: what is less comes first
/// if the sort ascends, and last if it descends.
pub proof fn what_is_less_comes_first(x: DocModel, y: DocModel)
    requires
        value_meets(Op::Lt, x, y),
    ensures
        sorted_as(SortOrder::Asc, x, y) == Relation::Less,
        sorted_as(SortOrder::Asc, y, x) == Relation::Greater,
        sorted_as(SortOrder::Desc, x, y) == Relation::Greater,
        sorted_as(SortOrder::Desc, y, x) == Relation::Less,
{
    lemma_no_nan(x);
    lemma_no_nan(y);
    match (x, y) {
        (DocModel::Int(a), DocModel::Int(b)) => {
            rounding_keeps_order(a, b);
            if rank(float_of_int(a)) == rank(float_of_int(b)) {
                lemma_far_out(a, b);
            }
        },
        (DocModel::String(a), DocModel::String(b)) => {
            lemma_lt_asymmetric(encode_utf8(a), encode_utf8(b));
            lemma_lt_irreflexive(encode_utf8(a));
        },
        _ => {},
    }
}

/// Integers that share a float are beyond 2^53.
proof fn lemma_far_out(a: i64, b: i64)
    requires
        a < b,
        rank(float_of_int(a)) == rank(float_of_int(b)),
    ensures
        a >= 0x20_0000_0000_0000 || b <= -0x20_0000_0000_0000,
{
    let top: i64 = 0x20_0000_0000_0000;
    if -top <= a && b <= top {
        small_integers_are_floats(a);
        small_integers_are_floats(b);
        lemma_scaled_rank(float_of_int(a), float_of_int(b));
        let unit = pow2(1074);
        lemma_pow2_pos(1074);
        assert(a * unit < b * unit) by (nonlinear_arith)
            requires
                a < b,
                unit > 0,
        ;
    } else if a < top && b > -top {
        // One of them is within, and the other is not.
        let c: i64 = (-0x20_0000_0000_0000) as i64;
        if -top <= a {
            rounding_keeps_order(a, top);
            rounding_keeps_order(top, b);
            lemma_within(a, top);
        } else {
            rounding_keeps_order(a, c);
            if b <= top {
                rounding_keeps_order(c, b);
                lemma_within(c, b);
            } else {
                rounding_keeps_order(c, top);
                rounding_keeps_order(top, b);
                lemma_within(c, top);
            }
        }
    }
}

proof fn lemma_within(a: i64, b: i64)
    requires
        -0x20_0000_0000_0000 <= a < b <= 0x20_0000_0000_0000,
    ensures
        rank(float_of_int(a)) < rank(float_of_int(b)),
{
    small_integers_are_floats(a);
    small_integers_are_floats(b);
    lemma_scaled_rank(float_of_int(a), float_of_int(b));
    let unit = pow2(1074);
    lemma_pow2_pos(1074);
    assert(a * unit < b * unit) by (nonlinear_arith)
        requires
            a < b,
            unit > 0,
    ;
}

/// What a sort has for equal, of values of one kind, a filter has for equal.
pub proof fn what_sorts_as_equal_is_equal(order: SortOrder, x: DocModel, y: DocModel)
    requires
        sorted_as(order, x, y) == Relation::Equal,
        standing(x) < 4,
    ensures
        value_meets(Op::Eq, x, y),
{
    lemma_no_nan(x);
    lemma_no_nan(y);
    if standing(x) < standing(y) {
        kinds_come_one_after_the_other(x, y);
    } else if standing(y) < standing(x) {
        kinds_come_one_after_the_other(y, x);
    } else {
        values_of_a_kind_compare(x, y);
        if value_meets(Op::Lt, x, y) {
            what_is_less_comes_first(x, y);
        }
        if value_meets(Op::Gt, x, y) {
            what_is_less_comes_first(y, x);
        }
    }
}

/// What a filter has for equal a sort has for equal; but integers that floats
/// can't tell apart are told apart from a float as well: those above 2^53 come
/// behind it, and those below -2^53 before it.
pub proof fn what_is_equal_sorts_as_equal(order: SortOrder, x: DocModel, y: DocModel)
    requires
        value_meets(Op::Eq, x, y),
    ensures
        match (x, y) {
            (DocModel::Int(n), DocModel::Float(_)) => sorted_as(SortOrder::Asc, x, y) == if n
                > 0x20_0000_0000_0000 {
                Relation::Greater
            } else if n < -0x20_0000_0000_0000 {
                Relation::Less
            } else {
                Relation::Equal
            },
            (DocModel::Float(_), DocModel::Int(n)) => sorted_as(SortOrder::Asc, x, y) == if n
                > 0x20_0000_0000_0000 {
                Relation::Less
            } else if n < -0x20_0000_0000_0000 {
                Relation::Greater
            } else {
                Relation::Equal
            },
            _ => sorted_as(order, x, y) == Relation::Equal,
        },
        sorted_as(SortOrder::Desc, x, y) == match sorted_as(SortOrder::Asc, x, y) {
            Relation::Less => Relation::Greater,
            Relation::Greater => Relation::Less,
            Relation::Equal => Relation::Equal,
        },
{
    lemma_no_nan(x);
    lemma_no_nan(y);
    match (x, y) {
        (DocModel::String(a), DocModel::String(b)) => {
            lemma_lt_irreflexive(encode_utf8(a));
        },
        _ => {},
    }
}

/// A value is equal to itself.
pub proof fn a_value_sorts_as_itself(order: SortOrder, x: DocModel)
    ensures
        sorted_as(order, x, x) == Relation::Equal,
{
}

} // verus!

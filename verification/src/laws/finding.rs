//! What a filter finds.

use crate::builder::comparison;
use crate::collection::api::{limited, match_count, without_found};
use crate::collection::find::{are_all_matches, are_matches, come_first, is_among, is_answer};
use crate::document::DocModel;
use crate::filter::{
    comes_before, ids_distinct, meets, meets_all, sort_order_is_strict, value_meets, ConditionModel,
    FilterModel, Found,
};
use crate::path::values_of;
use crate::query::Op;
use vstd::prelude::*;

verus! {

// ---------------------------------------------------------------------
// Conditions.

/// A comparison holds of a document if it holds of one of the values that its
/// path leads to.
pub proof fn one_value_is_enough(op: Op, field: Seq<char>, value: DocModel, m: DocModel, i: int)
    requires
        op != Op::Ne,
        0 <= i < values_of(m, field).len(),
        value_meets(op, values_of(m, field)[i], value),
    ensures
        meets(comparison(field, op, value), m),
{
}

/// A path that leads to one value is compared by that one.
pub proof fn the_only_value_decides(
    op: Op,
    field: Seq<char>,
    value: DocModel,
    m: DocModel,
    found: DocModel,
)
    requires
        values_of(m, field) == seq![found],
    ensures
        meets(comparison(field, op, value), m) <==> value_meets(op, found, value),
{
    let all = values_of(m, field);
    assert(all[0] == found);
    if meets(comparison(field, op, value), m) && op != Op::Ne {
        let i = choose|i: int| 0 <= i < all.len() && value_meets(op, #[trigger] all[i], value);
        assert(i == 0);
    }
    if value_meets(op, found, value) && op == Op::Ne {
        assert forall|i: int| 0 <= i < all.len() implies value_meets(
            op,
            #[trigger] all[i],
            value,
        ) by {
            assert(i == 0);
        }
    }
}

/// A path that leads to several values is compared by each of them: with more
/// values, a comparison holds that held of the first ones or holds of the last.
pub proof fn several_values_are_compared_one_by_one(
    op: Op,
    field: Seq<char>,
    value: DocModel,
    m: DocModel,
    less: DocModel,
    last: DocModel,
)
    requires
        values_of(m, field) == values_of(less, field).push(last),
        op != Op::Ne,
    ensures
        meets(comparison(field, op, value), m) <==> meets(comparison(field, op, value), less)
            || value_meets(op, last, value),
{
    let all = values_of(m, field);
    let some = values_of(less, field);
    if meets(comparison(field, op, value), m) {
        let i = choose|i: int| 0 <= i < all.len() && value_meets(op, #[trigger] all[i], value);
        if i < some.len() {
            assert(value_meets(op, some[i], value));
        }
    }
    if meets(comparison(field, op, value), less) {
        let i = choose|i: int| 0 <= i < some.len() && value_meets(op, #[trigger] some[i], value);
        assert(value_meets(op, all[i], value));
    }
    assert(all[some.len() as int] == last);
}

/// A path that leads nowhere meets no comparison but not being equal.
pub proof fn without_values_nothing_holds(op: Op, field: Seq<char>, value: DocModel, m: DocModel)
    requires
        values_of(m, field).len() == 0,
    ensures
        meets(comparison(field, op, value), m) <==> op == Op::Ne,
{
}

/// A field is not equal to a value exactly if it isn't equal to it, whether the
/// path leads to one value, to several or to none.
pub proof fn not_equal_is_not_equal(field: Seq<char>, value: DocModel, m: DocModel)
    ensures
        meets(comparison(field, Op::Ne, value), m) <==> !meets(
            comparison(field, Op::Eq, value),
            m,
        ),
{
    let all = values_of(m, field);
    if meets(comparison(field, Op::Ne, value), m) && meets(comparison(field, Op::Eq, value), m) {
        let i = choose|i: int| 0 <= i < all.len() && value_meets(Op::Eq, #[trigger] all[i], value);
        assert(value_meets(Op::Ne, all[i], value));
    }
    if !meets(comparison(field, Op::Eq, value), m) {
        assert forall|i: int| 0 <= i < all.len() implies value_meets(
            Op::Ne,
            #[trigger] all[i],
            value,
        ) by {
            assert(!value_meets(Op::Eq, all[i], value));
        }
    }
}

/// Of conditions that must all hold, one more is one more that must hold; of
/// none, all hold.
pub proof fn all_of_means_each(list: Seq<ConditionModel>, last: ConditionModel, m: DocModel)
    ensures
        meets(ConditionModel::All(list.push(last)), m) <==> meets(ConditionModel::All(list), m)
            && meets(last, m),
        meets(ConditionModel::All(Seq::empty()), m),
{
    let more = list.push(last);
    lemma_all(ConditionModel::All(list), m);
    lemma_all(ConditionModel::All(more), m);
    lemma_all(ConditionModel::All(Seq::empty()), m);
    assert(more[list.len() as int] == last);
    assert forall|i: int| 0 <= i < list.len() implies #[trigger] more[i] == list[i] by {}
    if meets_all(more, m) {
        assert forall|i: int| 0 <= i < list.len() implies meets(#[trigger] list[i], m) by {
            assert(meets(more[i], m));
        }
    }
}

proof fn lemma_all(c: ConditionModel, m: DocModel)
    requires
        c is All,
    ensures
        meets(c, m) <==> meets_all(c->All_0, m),
{
}

/// Of conditions of which one must hold, one more is one more that may hold; of
/// none, none holds.
pub proof fn any_of_means_one(list: Seq<ConditionModel>, last: ConditionModel, m: DocModel)
    ensures
        meets(ConditionModel::Any(list.push(last)), m) <==> meets(ConditionModel::Any(list), m)
            || meets(last, m),
        !meets(ConditionModel::Any(Seq::empty()), m),
{
    let more = list.push(last);
    lemma_any(ConditionModel::Any(list), m);
    lemma_any(ConditionModel::Any(more), m);
    lemma_any(ConditionModel::Any(Seq::empty()), m);
    assert(more[list.len() as int] == last);
    if meets(ConditionModel::Any(more), m) {
        let i = choose|i: int| 0 <= i < more.len() && meets(#[trigger] more[i], m);
        if i < list.len() {
            assert(meets(list[i], m));
        }
    }
    if meets(ConditionModel::Any(list), m) {
        let i = choose|i: int| 0 <= i < list.len() && meets(#[trigger] list[i], m);
        assert(meets(more[i], m));
    }
}

proof fn lemma_any(c: ConditionModel, m: DocModel)
    requires
        c is Any,
    ensures
        meets(c, m) <==> exists|i: int|
            0 <= i < c->Any_0.len() && meets(#[trigger] c->Any_0[i], m),
{
}

/// A condition or its opposite holds, and never both.
pub proof fn a_condition_or_its_opposite(c: ConditionModel, m: DocModel)
    ensures
        meets(ConditionModel::Not(Box::new(c)), m) != meets(c, m),
{
}

/// One more condition leaves of the documents those that meet it too, and no
/// condition leaves all of them.
pub proof fn one_more_condition_leaves_fewer(f: FilterModel, c: ConditionModel, m: DocModel)
    ensures
        meets_all(f.and(c).conditions, m) <==> meets_all(f.conditions, m) && meets(c, m),
        meets_all(Seq::<ConditionModel>::empty(), m),
        f.and(c).sort == f.sort && f.and(c).limit == f.limit,
{
    let more = f.and(c).conditions;
    let list = f.conditions;
    if meets_all(more, m) {
        assert forall|i: int| 0 <= i < list.len() implies meets(#[trigger] list[i], m) by {
            assert(more[i] == list[i]);
        }
        assert(more[list.len() as int] == c);
    }
    if meets_all(list, m) && meets(c, m) {
        assert forall|i: int| 0 <= i < more.len() implies meets(#[trigger] more[i], m) by {
            if i < list.len() {
                assert(more[i] == list[i]);
            }
        }
    }
}

// ---------------------------------------------------------------------
// Answers.

/// Whether a document is there and meets every condition.
pub open spec fn is_match(held: Map<Seq<u8>, DocModel>, f: FilterModel, id: Seq<u8>) -> bool {
    held.dom().contains(id) && meets_all(f.conditions, held[id])
}

/// What is found is stored, as it was found, and meets the conditions, and no
/// document is found twice.
pub proof fn what_is_found_matches(
    held: Map<Seq<u8>, DocModel>,
    f: FilterModel,
    found: Seq<Found>,
    i: int,
    j: int,
)
    requires
        is_answer(held, f, found),
        0 <= i < j < found.len(),
    ensures
        is_match(held, f, found[i].0) && held[found[i].0] == found[i].1,
        is_match(held, f, found[j].0) && held[found[j].0] == found[j].1,
        found[i].0 != found[j].0,
{
}

/// Without a limit, every match is found, and nothing else.
pub proof fn without_a_limit_all_matches_are_found(
    held: Map<Seq<u8>, DocModel>,
    f: FilterModel,
    found: Seq<Found>,
    id: Seq<u8>,
)
    requires
        is_answer(held, f, found),
        f.limit is None,
    ensures
        is_match(held, f, id) <==> exists|i: int|
            0 <= i < found.len() && (#[trigger] found[i]).0 == id,
{
    if is_match(held, f, id) {
        assert(is_among(found, id));
    }
    if exists|i: int| 0 <= i < found.len() && (#[trigger] found[i]).0 == id {
        let i = choose|i: int| 0 <= i < found.len() && (#[trigger] found[i]).0 == id;
        assert(held.dom().contains(found[i].0));
    }
}

/// With a limit, as many are found as there are matches, but no more than the
/// limit.
pub proof fn a_limit_limits(
    held: Map<Seq<u8>, DocModel>,
    f: FilterModel,
    limit: usize,
    all: Seq<Found>,
    some: Seq<Found>,
)
    requires
        is_answer(held, (FilterModel { limit: None, ..f }), all),
        is_answer(held, (FilterModel { limit: Some(limit), ..f }), some),
    ensures
        some.len() == if all.len() < limit {
            all.len()
        } else {
            limit as nat
        },
{
    let unlimited = FilterModel { limit: None, ..f };
    assert forall|i: int| 0 <= i < some.len() implies is_among(all, (#[trigger] some[i]).0) by {
        assert(held.dom().contains(some[i].0));
    }
    lemma_no_more(some, all);
    if some.len() < limit {
        assert forall|i: int| 0 <= i < all.len() implies is_among(some, (#[trigger] all[i]).0) by {
            assert(held.dom().contains(all[i].0));
        }
        lemma_no_more(all, some);
    }
}

/// Documents, none twice, that are all among others are no more than those.
proof fn lemma_no_more(some: Seq<Found>, all: Seq<Found>)
    requires
        ids_distinct(some),
        forall|i: int| 0 <= i < some.len() ==> is_among(all, (#[trigger] some[i]).0),
    ensures
        some.len() <= all.len(),
    decreases some.len(),
{
    if some.len() > 0 {
        let last = some.last().0;
        assert(is_among(all, some[some.len() - 1].0));
        let k = choose|k: int| 0 <= k < all.len() && (#[trigger] all[k]).0 == last;
        let fewer = some.drop_last();
        let others = all.remove(k);
        assert forall|i: int| 0 <= i < fewer.len() implies is_among(
            others,
            (#[trigger] fewer[i]).0,
        ) by {
            assert(fewer[i] == some[i]);
            assert(some[i].0 != some[some.len() - 1].0);
            assert(is_among(all, some[i].0));
            let j = choose|j: int| 0 <= j < all.len() && (#[trigger] all[j]).0 == some[i].0;
            if j < k {
                assert(others[j].0 == fewer[i].0);
            } else {
                assert(others[j - 1].0 == fewer[i].0);
            }
        }
        assert forall|i: int, j: int| 0 <= i < j < fewer.len() implies (#[trigger] fewer[i]).0 != (
        #[trigger] fewer[j]).0 by {
            assert(fewer[i] == some[i] && fewer[j] == some[j]);
        }
        lemma_no_more(fewer, others);
    }
}

/// A sort with a limit finds the first of what the sort alone finds.
pub proof fn a_sorted_answer_with_a_limit_is_the_front_of_the_whole(
    held: Map<Seq<u8>, DocModel>,
    f: FilterModel,
    limit: usize,
    all: Seq<Found>,
    some: Seq<Found>,
)
    requires
        f.sort.len() > 0,
        is_answer(held, (FilterModel { limit: None, ..f }), all),
        is_answer(held, (FilterModel { limit: Some(limit), ..f }), some),
    ensures
        some == all.take(some.len() as int),
        some.len() == if all.len() < limit {
            all.len()
        } else {
            limit as nat
        },
{
    a_limit_limits(held, f, limit, all, some);
    assert forall|i: int| 0 <= i < some.len() implies is_among(all, (#[trigger] some[i]).0) by {
        assert(held.dom().contains(some[i].0));
    }
    assert forall|i: int| 0 <= i < some.len() implies some[i] == #[trigger] all[i] by {
        lemma_same_front(held, f, all, some, i);
    }
    assert(some =~= all.take(some.len() as int));
}

proof fn lemma_same_front(
    held: Map<Seq<u8>, DocModel>,
    f: FilterModel,
    all: Seq<Found>,
    some: Seq<Found>,
    i: int,
)
    requires
        f.sort.len() > 0,
        are_matches(held, f, all),
        are_matches(held, f, some),
        come_first(held, f, all),
        come_first(held, f, some),
        are_all_matches(held, f, all),
        some.len() <= all.len(),
        0 <= i < some.len(),
    ensures
        some[i] == all[i],
    decreases i,
{
    let x = some[i];
    let y = all[i];
    if i > 0 {
        lemma_same_front(held, f, all, some, i - 1);
    }
    assert forall|j: int| 0 <= j < i implies some[j] == all[j] by {
        lemma_same_front(held, f, all, some, j);
    }
    assert(held.dom().contains(x.0) && held.dom().contains(y.0));
    assert(is_among(all, x.0));
    let k = choose|k: int| 0 <= k < all.len() && (#[trigger] all[k]).0 == x.0;
    if x.0 != y.0 {
        // In the whole, the other is in front of this one.
        if k < i {
            assert(some[k] == all[k]);
            assert(some[k].0 != some[i].0);
        }
        assert(k > i);
        assert(comes_before(f.sort, all[i], all[k]));
        if is_among(some, y.0) {
            let j = choose|j: int| 0 <= j < some.len() && (#[trigger] some[j]).0 == y.0;
            if j < i {
                assert(some[j] == all[j]);
                assert(all[j].0 != all[i].0);
            }
            assert(j > i);
            assert(comes_before(f.sort, some[i], some[j]));
        } else {
            assert(comes_before(f.sort, some[i], (y.0, held[y.0])));
        }
        sort_order_is_strict(f.sort, x, y, x);
    }
}

/// Two sorted answers to one question are the same.
pub proof fn a_sorted_answer_is_the_only_one(
    held: Map<Seq<u8>, DocModel>,
    f: FilterModel,
    a: Seq<Found>,
    b: Seq<Found>,
)
    requires
        f.sort.len() > 0,
        f.limit is None,
        is_answer(held, f, a),
        is_answer(held, f, b),
    ensures
        a == b,
{
    assert forall|i: int| 0 <= i < a.len() implies is_among(b, (#[trigger] a[i]).0) by {
        assert(held.dom().contains(a[i].0));
    }
    assert forall|i: int| 0 <= i < b.len() implies is_among(a, (#[trigger] b[i]).0) by {
        assert(held.dom().contains(b[i].0));
    }
    lemma_no_more(a, b);
    lemma_no_more(b, a);
    assert forall|i: int| 0 <= i < a.len() implies a[i] == b[i] by {
        lemma_same_front(held, f, b, a, i);
    }
    assert(a =~= b);
}

/// What is found comes in the order of the sort.
pub proof fn what_is_found_is_in_order(
    held: Map<Seq<u8>, DocModel>,
    f: FilterModel,
    found: Seq<Found>,
    i: int,
    j: int,
)
    requires
        f.sort.len() > 0,
        is_answer(held, f, found),
        0 <= i < j < found.len(),
    ensures
        comes_before(f.sort, found[i], found[j]),
{
}

/// A count is how many documents a filter finds, at most its limit, and there is
/// one such number.
pub proof fn a_count_is_the_number_found(
    held: Map<Seq<u8>, DocModel>,
    f: FilterModel,
    n: int,
    found: Seq<Found>,
)
    requires
        match_count(held, f, n),
        is_answer(held, f, found),
    ensures
        found.len() == limited(n, f.limit),
{
    let all = choose|all: Seq<Found>|
        all.len() == n && are_matches(held, f, all) && #[trigger] are_all_matches(held, f, all);
    assert forall|i: int| 0 <= i < found.len() implies is_among(all, (#[trigger] found[i]).0) by {
        assert(held.dom().contains(found[i].0));
    }
    lemma_no_more(found, all);
    if f.limit is None || found.len() < f.limit->Some_0 {
        assert forall|i: int| 0 <= i < all.len() implies is_among(found, (#[trigger] all[i]).0) by {
            assert(held.dom().contains(all[i].0));
        }
        lemma_no_more(all, found);
    }
}

/// Once all that a filter finds without a limit is gone, it finds nothing, and
/// what it did not find is still there.
pub proof fn what_was_deleted_is_not_found_again(
    held: Map<Seq<u8>, DocModel>,
    f: FilterModel,
    gone: Seq<Found>,
    id: Seq<u8>,
)
    requires
        f.limit is None,
        is_answer(held, f, gone),
    ensures
        !is_match(without_found(held, gone), f, id),
        held.dom().contains(id) && !is_match(held, f, id) ==> without_found(
            held,
            gone,
        ).dom().contains(id) && without_found(held, gone)[id] == held[id],
{
    without_a_limit_all_matches_are_found(held, f, gone, id);
}

/// Only what was found is deleted, and nothing else is changed.
pub proof fn only_what_was_found_is_deleted(
    held: Map<Seq<u8>, DocModel>,
    gone: Seq<Found>,
    id: Seq<u8>,
)
    ensures
        without_found(held, gone).dom().contains(id) <==> held.dom().contains(id) && forall|i: int|
            0 <= i < gone.len() ==> (#[trigger] gone[i]).0 != id,
        without_found(held, gone).dom().contains(id) ==> without_found(held, gone)[id] == held[id],
{
    if !is_among(gone, id) {
        assert forall|i: int| 0 <= i < gone.len() implies (#[trigger] gone[i]).0 != id by {}
    }
}

} // verus!

//! Reading one document at a time, and how a filter runs.

use super::finding::is_match;
use super::indexing::counts;
use crate::builder::comparison;
use crate::catalog::entry::{index_name, IndexModel};
use crate::collection::explain::{is_plan, QueryPlan};
use crate::collection::find::{ids_cover, is_among, is_answer};
use crate::collection::handle::first_of;
use crate::cursor::{next_match, next_outcome, CursorModel};
use crate::document::{DocId, DocModel, Document};
use crate::error::Error;
use crate::filter::{comes_before, ConditionModel, FilterModel, Found};
use crate::index::key::value_key;
use crate::number::rounding_keeps_order;
use crate::ordering::{order_place, order_read};
use crate::path::{path_steps, starless};
use crate::planner::{
    best_place, condition_range, first_range, fixed_to, fixes_to, front_values, has_range,
    index_score, narrows_most, next_narrowed, on_plain_paths, planned, planned_first,
};
use crate::query::Op;
use vstd::prelude::*;

verus! {

// ---------------------------------------------------------------------
// Cursors.

/// What a cursor has still to give while nothing is written: of the candidates
/// left those that match, in their order, as many as it may give.
pub open spec fn to_come(
    held: Map<Seq<u8>, DocModel>,
    f: FilterModel,
    c: CursorModel,
) -> Seq<Found> {
    match c {
        CursorModel::Collected(found) => found,
        CursorModel::Streaming { ids, remaining } => {
            let all = matching(held, f, ids);
            match remaining {
                Some(n) => if n < all.len() {
                    all.take(n as int)
                } else {
                    all
                },
                None => all,
            }
        },
    }
}

/// Those of the ids that match, with their documents.
pub open spec fn matching(
    held: Map<Seq<u8>, DocModel>,
    f: FilterModel,
    ids: Seq<Seq<u8>>,
) -> Seq<Found> {
    ids.filter(|id: Seq<u8>| is_match(held, f, id)).map_values(|id: Seq<u8>| (id, held[id]))
}

proof fn lemma_matching_front(
    held: Map<Seq<u8>, DocModel>,
    f: FilterModel,
    id: Seq<u8>,
    ids: Seq<Seq<u8>>,
)
    ensures
        matching(held, f, seq![id] + ids) == if is_match(held, f, id) {
            seq![(id, held[id])] + matching(held, f, ids)
        } else {
            matching(held, f, ids)
        },
{
    let test = |id: Seq<u8>| is_match(held, f, id);
    Seq::filter_distributes_over_add(seq![id], ids, test);
    reveal_with_fuel(Seq::filter, 2);
    assert(seq![id].drop_last() =~= Seq::<Seq<u8>>::empty());
    assert(seq![id].filter(test) =~= if is_match(held, f, id) {
        seq![id]
    } else {
        Seq::<Seq<u8>>::empty()
    });
    assert(matching(held, f, seq![id] + ids) =~= if is_match(held, f, id) {
        seq![(id, held[id])] + matching(held, f, ids)
    } else {
        matching(held, f, ids)
    });
}

proof fn lemma_next_match(held: Map<Seq<u8>, DocModel>, f: FilterModel, ids: Seq<Seq<u8>>)
    ensures
        next_match(held, f, ids) <= ids.len(),
        next_match(held, f, ids) == ids.len() ==> matching(held, f, ids).len() == 0,
        next_match(held, f, ids) < ids.len() ==> ({
            let k = next_match(held, f, ids) as int;
            matching(held, f, ids) == seq![(ids[k], held[ids[k]])] + matching(
                held,
                f,
                ids.skip(k + 1),
            )
        }),
    decreases ids.len(),
{
    if ids.len() == 0 {
        reveal(Seq::filter);
    } else {
        let rest = ids.skip(1);
        assert(ids =~= seq![ids[0]] + rest);
        lemma_matching_front(held, f, ids[0], rest);
        if !is_match(held, f, ids[0]) {
            lemma_next_match(held, f, rest);
            let k = next_match(held, f, rest) as int;
            if k < rest.len() {
                assert(rest[k] == ids[k + 1]);
                assert(rest.skip(k + 1) =~= ids.skip(k + 2));
            }
        }
    }
}

/// A cursor gives, one after the other, the matches among its candidates, as
/// many as its limit lets it, and then no more.
pub proof fn a_cursor_gives_one_match_after_the_other(
    held: Map<Seq<u8>, DocModel>,
    f: FilterModel,
    before: CursorModel,
    after: CursorModel,
    r: Option<Result<(DocId, Document), Error>>,
)
    requires
        next_outcome(held, f, before, after, r, true),
    ensures
        to_come(held, f, before).len() == 0 ==> r is None && to_come(held, f, after).len() == 0,
        to_come(held, f, before).len() > 0 ==> {
            &&& r matches Some(Ok((id, doc))) && (id@, doc@) == to_come(held, f, before)[0]
            &&& to_come(held, f, after) == to_come(held, f, before).skip(1)
        },
{
    match before {
        CursorModel::Collected(found) => {},
        CursorModel::Streaming { ids, remaining } => {
            lemma_next_match(held, f, ids);
            let all = matching(held, f, ids);
            let none = Seq::<Seq<u8>>::empty();
            reveal(Seq::filter);
            assert(matching(held, f, none).len() == 0);
            if remaining != Some(0usize) {
                let k = next_match(held, f, ids) as int;
                if k < ids.len() {
                    let rest = matching(held, f, ids.skip(k + 1));
                    assert(all.skip(1) =~= rest);
                    match remaining {
                        Some(n) => {
                            if n < all.len() {
                                assert(all.take(n as int).skip(1) =~= rest.take(n - 1));
                            }
                        },
                        None => {},
                    }
                }
            }
        },
    }
}

/// A cursor without a sort gives what the filter finds.
pub proof fn a_cursor_gives_an_answer(
    held: Map<Seq<u8>, DocModel>,
    f: FilterModel,
    ids: Seq<Seq<u8>>,
)
    requires
        f.sort.len() == 0,
        ids_cover(held, f, ids),
    ensures
        is_answer(held, f, to_come(held, f, (CursorModel::Streaming { ids, remaining: f.limit }))),
{
    let test = |id: Seq<u8>| is_match(held, f, id);
    let kept = ids.filter(test);
    let all = matching(held, f, ids);
    let found = to_come(held, f, (CursorModel::Streaming { ids, remaining: f.limit }));
    assert(all.len() == kept.len());
    assert forall|i: int| 0 <= i < kept.len() implies is_match(held, f, #[trigger] kept[i]) by {
        ids.lemma_filter_pred(test, i);
    }
    lemma_filter_distinct(ids, test);
    assert forall|i: int| 0 <= i < found.len() implies #[trigger] found[i] == (
        kept[i],
        held[kept[i]],
    ) by {
        assert(found[i] == all[i]);
    }
    assert forall|i: int, j: int| 0 <= i < j < found.len() implies (#[trigger] found[i]).0 != (
    #[trigger] found[j]).0 by {
        assert(kept[i] != kept[j]);
    }
    assert forall|i: int| 0 <= i < found.len() implies held.dom().contains((#[trigger] found[i]).0)
        && held[found[i].0] == found[i].1 && crate::filter::meets_all(
        f.conditions,
        found[i].1,
    ) by {
        assert(is_match(held, f, kept[i]));
    }
    if found.len() == all.len() {
        assert forall|id: Seq<u8>| #[trigger]
            held.dom().contains(id) && crate::filter::meets_all(
                f.conditions,
                held[id],
            ) implies is_among(found, id) by {
            assert(ids.contains(id));
            let k = choose|k: int| 0 <= k < ids.len() && ids[k] == id;
            ids.lemma_filter_contains(test, k);
            assert(kept.contains(id));
            let i = choose|i: int| 0 <= i < kept.len() && kept[i] == id;
            assert(found[i].0 == id);
        }
    }
}

proof fn lemma_filter_distinct(ids: Seq<Seq<u8>>, test: spec_fn(Seq<u8>) -> bool)
    requires
        ids.no_duplicates(),
    ensures
        ids.filter(test).no_duplicates(),
    decreases ids.len(),
{
    reveal(Seq::filter);
    if ids.len() > 0 {
        let less = ids.drop_last();
        assert(less.no_duplicates());
        lemma_filter_distinct(less, test);
        let kept = less.filter(test);
        assert forall|i: int| 0 <= i < kept.len() implies kept[i] != ids.last() by {
            assert(kept.contains(kept[i]));
            less.lemma_filter_contains_rev(test, kept[i]);
            let k = choose|k: int| 0 <= k < less.len() && less[k] == kept[i];
            assert(ids[k] != ids[ids.len() - 1]);
        }
    }
}

// ---------------------------------------------------------------------
// The first match.

/// The first match is a match, and with a sort none comes before it; there is
/// none exactly if nothing matches or nothing may be found.
pub proof fn the_first_match_is_the_first(
    held: Map<Seq<u8>, DocModel>,
    f: FilterModel,
    found: Seq<Found>,
    other: Seq<u8>,
)
    requires
        is_answer(held, first_of(f), found),
    ensures
        found.len() <= 1,
        found.len() == 1 ==> is_match(held, f, found[0].0) && held[found[0].0] == found[0].1,
        found.len() == 1 && f.sort.len() > 0 && is_match(held, f, other) && other != found[0].0
            ==> comes_before(f.sort, found[0], (other, held[other])),
        found.len() == 0 && f.limit != Some(0usize) ==> !is_match(held, f, other),
        f.limit == Some(0usize) ==> found.len() == 0,
{
    if found.len() == 1 && is_match(held, f, other) && other != found[0].0 {
        assert(!is_among(found, other));
    }
    if found.len() == 0 && is_match(held, f, other) {
        assert(!is_among(found, other));
    }
}

// ---------------------------------------------------------------------
// Plans.

/// An index on one field serves the comparisons of that field with `==`, `<`,
/// `<=`, `>` and `>=`, for every value that has an order, and for null unless
/// the index is sparse; and it serves nothing else.
pub proof fn an_index_serves_comparisons(
    index: IndexModel,
    field: Seq<char>,
    op: Op,
    value: DocModel,
)
    ensures
        has_range(index, field, op, value) <==> {
            &&& index.fields == seq![field]
            &&& op != Op::Ne && op != Op::Contains
            &&& counts(value) || value is Null && !index.sparse
        },
{
    if index.fields.len() == 1 && index.fields[0] == field {
        assert(index.fields =~= seq![field]);
    }
    lemma_value_key(value, 1);
}

/// A filter that compares a field which an index serves isn't run by reading
/// every document, whatever else it asks for.
pub proof fn an_index_that_serves_is_used(
    f: FilterModel,
    indexes: Seq<IndexModel>,
    plan: QueryPlan,
    i: int,
    k: int,
    op: Op,
    value: DocModel,
)
    requires
        is_plan(f, indexes, plan),
        0 <= i < f.conditions.len(),
        0 <= k < indexes.len(),
        indexes[k].fields.len() == 1,
        f.conditions[i] == comparison(indexes[k].fields[0], op, value),
        op != Op::Ne,
        op != Op::Contains,
        counts(value),
    ensures
        !(plan is Scan),
{
    assert(indexes[k].fields =~= seq![indexes[k].fields[0]]);
    an_index_serves_comparisons(indexes[k], indexes[k].fields[0], op, value);
    assert(has_range(indexes[k], indexes[k].fields[0], op, value));
    assert(planned(f.conditions[i], indexes) is Some);
    lemma_planned(f.conditions, indexes, i, f.conditions.len());
}

proof fn lemma_planned(conditions: Seq<ConditionModel>, indexes: Seq<IndexModel>, i: int, n: nat)
    requires
        0 <= i < n <= conditions.len(),
        planned(conditions[i], indexes) is Some,
    ensures
        planned_first(conditions, indexes, n) is Some,
    decreases n,
{
    if i < n - 1 {
        lemma_planned(conditions, indexes, i, (n - 1) as nat);
    }
}

/// Whether a condition compares the first field of an index in a way that the
/// index serves.
pub open spec fn begins_with(index: IndexModel, c: ConditionModel) -> bool {
    c matches ConditionModel::Compare { field, op, value } && field == index.fields[0] && op
        != Op::Ne && op != Op::Contains && (counts(value) || value is Null && !index.sparse)
}

/// Whether an index can be one: on a field, or on several plain ones, up to
/// eight.
pub open spec fn can_be(index: IndexModel) -> bool {
    &&& 1 <= index.fields.len() <= 8
    &&& index.fields.len() > 1 ==> forall|i: int|
        0 <= i < index.fields.len() ==> starless(path_steps(#[trigger] index.fields[i]))
}

/// A filter of comparisons without a limit reads every document exactly if no
/// index begins with a field that it compares.
pub proof fn every_document_is_read_if_no_index_serves(
    f: FilterModel,
    indexes: Seq<IndexModel>,
    plan: QueryPlan,
)
    requires
        is_plan(f, indexes, plan),
        f.limit is None,
        forall|i: int| 0 <= i < f.conditions.len() ==> (#[trigger] f.conditions[i]) is Compare,
        forall|k: int| 0 <= k < indexes.len() ==> can_be(#[trigger] indexes[k]),
    ensures
        plan is Scan <==> forall|i: int, k: int|
            #![trigger f.conditions[i], indexes[k]]
            0 <= i < f.conditions.len() && 0 <= k < indexes.len() ==> !begins_with(
                indexes[k],
                f.conditions[i],
            ),
        !(plan is Scan) ==> plan is Index,
{
    assert forall|k: int| 0 <= k < indexes.len() implies (index_score(
        f.conditions,
        #[trigger] indexes[k],
    ) > 0 <==> exists|i: int|
        0 <= i < f.conditions.len() && begins_with(indexes[k], #[trigger] f.conditions[i])) by {
        lemma_score(f.conditions, indexes[k]);
    }
    assert(order_place(f, indexes) is None);
    if best_place(f.conditions, indexes) is Some {
        let k = choose|k: int|
            0 <= k < indexes.len() && index_score(f.conditions, #[trigger] indexes[k]) > 0;
        let i = choose|i: int|
            0 <= i < f.conditions.len() && begins_with(indexes[k], #[trigger] f.conditions[i]);
        assert(begins_with(indexes[k], f.conditions[i]));
    } else {
        assert forall|i: int, k: int|
            #![trigger f.conditions[i], indexes[k]]
            0 <= i < f.conditions.len() && 0 <= k < indexes.len() implies !begins_with(
            indexes[k],
            f.conditions[i],
        ) by {
            assert(!(index_score(f.conditions, indexes[k]) > 0));
        }
        lemma_none_planned(f.conditions, indexes, f.conditions.len());
    }
}

proof fn lemma_none_planned(conditions: Seq<ConditionModel>, indexes: Seq<IndexModel>, n: nat)
    requires
        n <= conditions.len(),
        forall|i: int| 0 <= i < conditions.len() ==> (#[trigger] conditions[i]) is Compare,
        forall|i: int, k: int|
            #![trigger conditions[i], indexes[k]]
            0 <= i < conditions.len() && 0 <= k < indexes.len() ==> !begins_with(
                indexes[k],
                conditions[i],
            ),
    ensures
        planned_first(conditions, indexes, n) is None,
    decreases n,
{
    if n > 0 {
        lemma_none_planned(conditions, indexes, (n - 1) as nat);
        let c = conditions[n - 1];
        let (field, op, value) = (c->Compare_field, c->Compare_op, c->Compare_value);
        assert forall|k: int| 0 <= k < indexes.len() implies !has_range(
            #[trigger] indexes[k],
            field,
            op,
            value,
        ) by {
            an_index_serves_comparisons(indexes[k], field, op, value);
            assert(!begins_with(indexes[k], conditions[n - 1]));
        }
        assert(planned(c, indexes) is None);
    }
}

/// An index narrows what its first field is compared in.
proof fn lemma_score(conditions: Seq<ConditionModel>, index: IndexModel)
    requires
        can_be(index),
        forall|i: int| 0 <= i < conditions.len() ==> (#[trigger] conditions[i]) is Compare,
    ensures
        index_score(conditions, index) > 0 <==> exists|i: int|
            0 <= i < conditions.len() && begins_with(index, #[trigger] conditions[i]),
{
    let n = index.fields.len() as int;
    let first = index.fields[0];
    let all = conditions.len() as int;
    assert forall|i: int| 0 <= i < conditions.len() implies (condition_range(
        #[trigger] conditions[i],
        first,
        index.sparse,
        n,
    ) is Some <==> begins_with(index, conditions[i])) by {
        lemma_value_key(conditions[i]->Compare_value, n);
    }
    if on_plain_paths(index) {
        let front = front_values(conditions, index, 0);
        if front.len() > 0 {
            let fixed = fixed_to(conditions, first, index.sparse, all);
            lemma_fixing(conditions, first, index.sparse, all);
            let i = choose|i: int|
                0 <= i < all && fixes_to(#[trigger] conditions[i], first, index.sparse) == fixed;
            assert(condition_range(conditions[i], first, index.sparse, n) is Some);
            assert(begins_with(index, conditions[i]));
        } else if exists|i: int|
            0 <= i < conditions.len() && begins_with(index, #[trigger] conditions[i]) {
            let i = choose|i: int|
                0 <= i < conditions.len() && begins_with(index, #[trigger] conditions[i]);
            assert(condition_range(conditions[i], first, index.sparse, n) is Some);
            assert(next_narrowed(conditions, index));
        } else if next_narrowed(conditions, index) {
            let i = choose|i: int|
                0 <= i < all && condition_range(
                    #[trigger] conditions[i],
                    first,
                    index.sparse,
                    n,
                ) is Some;
            assert(begins_with(index, conditions[i]));
        }
    } else {
        lemma_first_to_serve(conditions, index, all);
        if first_range(conditions, index, all) is Some {
            let i = choose|i: int|
                0 <= i < all && condition_range(
                    #[trigger] conditions[i],
                    first,
                    index.sparse,
                    1,
                ) is Some;
            assert(begins_with(index, conditions[i]));
        } else if exists|i: int|
            0 <= i < conditions.len() && begins_with(index, #[trigger] conditions[i]) {
            let i = choose|i: int|
                0 <= i < conditions.len() && begins_with(index, #[trigger] conditions[i]);
            assert(condition_range(conditions[i], first, index.sparse, 1) is Some);
        }
    }
}

/// A value has a key exactly if it has an order, or is null.
proof fn lemma_value_key(value: DocModel, fields: int)
    ensures
        value_key(value, fields) is Some <==> counts(value) || value is Null,
{
    match value {
        DocModel::Int(n) => {
            rounding_keeps_order(n, n);
        },
        _ => {},
    }
}

proof fn lemma_fixing(conditions: Seq<ConditionModel>, field: Seq<char>, sparse: bool, n: int)
    requires
        0 <= n <= conditions.len(),
        fixed_to(conditions, field, sparse, n) is Some,
    ensures
        exists|i: int|
            0 <= i < n && fixes_to(#[trigger] conditions[i], field, sparse) == fixed_to(
                conditions,
                field,
                sparse,
                n,
            ),
    decreases n,
{
    if n > 0 {
        if fixed_to(conditions, field, sparse, n - 1) is Some {
            lemma_fixing(conditions, field, sparse, n - 1);
            let i = choose|i: int|
                0 <= i < n - 1 && fixes_to(#[trigger] conditions[i], field, sparse) == fixed_to(
                    conditions,
                    field,
                    sparse,
                    n - 1,
                );
            assert(fixes_to(conditions[i], field, sparse) == fixed_to(
                conditions,
                field,
                sparse,
                n,
            ));
        } else {
            assert(fixes_to(conditions[n - 1], field, sparse) == fixed_to(
                conditions,
                field,
                sparse,
                n,
            ));
        }
    }
}

proof fn lemma_first_to_serve(conditions: Seq<ConditionModel>, index: IndexModel, n: int)
    requires
        0 <= n <= conditions.len(),
    ensures
        first_range(conditions, index, n) is Some <==> exists|i: int|
            0 <= i < n && condition_range(
                #[trigger] conditions[i],
                index.fields[0],
                index.sparse,
                1,
            ) is Some,
        first_range(conditions, index, n) matches Some((score, _)) ==> score > 0,
    decreases n,
{
    if n > 0 {
        lemma_first_to_serve(conditions, index, n - 1);
        if first_range(conditions, index, n - 1) is Some {
            let i = choose|i: int|
                0 <= i < n - 1 && condition_range(
                    #[trigger] conditions[i],
                    index.fields[0],
                    index.sparse,
                    1,
                ) is Some;
            assert(condition_range(conditions[i], index.fields[0], index.sparse, 1) is Some);
        } else if first_range(conditions, index, n) is Some {
            assert(condition_range(conditions[n - 1], index.fields[0], index.sparse, 1) is Some);
        }
    }
}

/// Whether a condition says that a field is equal to a value.
pub open spec fn fixed(conditions: Seq<ConditionModel>, field: Seq<char>) -> bool {
    exists|i: int|
        0 <= i < conditions.len() && (#[trigger] conditions[i] matches ConditionModel::Compare {
            field: on,
            op,
            ..
        } && on == field && op == Op::Eq)
}

/// Whether conditions fix `n` fields of an index, from the one at `k` on.
pub open spec fn fixes_fields(
    conditions: Seq<ConditionModel>,
    index: IndexModel,
    k: int,
    n: int,
) -> bool {
    k + n <= index.fields.len() && forall|i: int|
        k <= i < k + n ==> fixed(conditions, #[trigger] index.fields[i])
}

/// Of indexes on plain paths, a filter of comparisons without a limit uses one of
/// which it fixes no fewer fields, from the first on, than of any other.
pub proof fn the_index_with_the_most_fields_fixed_is_used(
    f: FilterModel,
    indexes: Seq<IndexModel>,
    plan: QueryPlan,
    other: int,
    n: int,
)
    requires
        is_plan(f, indexes, plan),
        f.limit is None,
        forall|i: int|
            0 <= i < f.conditions.len() ==> (#[trigger] f.conditions[i] matches ConditionModel::Compare {
                value,
                ..
            } && counts(value)),
        forall|k: int|
            0 <= k < indexes.len() ==> can_be(#[trigger] indexes[k]) && starless(
                path_steps(indexes[k].fields[0]),
            ),
        0 <= other < indexes.len(),
        0 < n,
        fixes_fields(f.conditions, indexes[other], 0, n),
    ensures
        plan matches QueryPlan::Index { field } && exists|k: int|
            0 <= k < indexes.len() && field@ == index_name((#[trigger] indexes[k]).fields)
                && fixes_fields(f.conditions, indexes[k], 0, n),
{
    assert(order_place(f, indexes) is None);
    lemma_front(f.conditions, indexes[other], 0, n);
    assert(index_score(f.conditions, indexes[other]) >= 2 * n);
    lemma_some_is_best(f.conditions, indexes, indexes.len() as int);
    let k = best_place(f.conditions, indexes)->Some_0;
    assert(narrows_most(f.conditions, indexes, k, indexes.len() as int));
    assert(index_score(f.conditions, indexes[other]) <= index_score(f.conditions, indexes[k]));
    lemma_front(f.conditions, indexes[k], 0, n);
}

/// Of indexes that conditions narrow, there is one that they narrow most.
proof fn lemma_some_is_best(conditions: Seq<ConditionModel>, indexes: Seq<IndexModel>, n: int)
    requires
        0 <= n <= indexes.len(),
        exists|k: int| 0 <= k < n && index_score(conditions, #[trigger] indexes[k]) > 0,
    ensures
        exists|k: int| 0 <= k < n && #[trigger] narrows_most(conditions, indexes, k, n),
    decreases n,
{
    let last = n - 1;
    if exists|k: int| 0 <= k < last && index_score(conditions, #[trigger] indexes[k]) > 0 {
        lemma_some_is_best(conditions, indexes, last);
        let k = choose|k: int| 0 <= k < last && #[trigger] narrows_most(conditions, indexes, k, last);
        if index_score(conditions, indexes[last]) > index_score(conditions, indexes[k]) {
            assert(narrows_most(conditions, indexes, last, n));
        } else {
            assert(narrows_most(conditions, indexes, k, n));
        }
    } else {
        let k = choose|k: int| 0 <= k < n && index_score(conditions, #[trigger] indexes[k]) > 0;
        assert(k == last);
        assert(narrows_most(conditions, indexes, last, n));
    }
}

/// The fields that are fixed, from the first on, are those that have a value.
proof fn lemma_front(conditions: Seq<ConditionModel>, index: IndexModel, k: int, n: int)
    requires
        can_be(index),
        starless(path_steps(index.fields[0])),
        0 <= k <= index.fields.len(),
        0 <= n,
        forall|i: int|
            0 <= i < conditions.len() ==> (#[trigger] conditions[i] matches ConditionModel::Compare {
                value,
                ..
            } && counts(value)),
    ensures
        front_values(conditions, index, k).len() >= n <==> fixes_fields(conditions, index, k, n),
    decreases index.fields.len() - k,
{
    let all = conditions.len() as int;
    if n > 0 && k < index.fields.len() {
        let field = index.fields[k];
        assert(starless(path_steps(field)));
        lemma_front(conditions, index, k + 1, n - 1);
        lemma_fixed(conditions, field, index.sparse, all);
        match fixed_to(conditions, field, index.sparse, all) {
            Some(value) => {
                lemma_fixing(conditions, field, index.sparse, all);
                let i = choose|i: int|
                    0 <= i < all && fixes_to(#[trigger] conditions[i], field, index.sparse) == Some(
                        value,
                    );
                assert(counts(value));
                lemma_value_key(value, index.fields.len() as int);
                if fixes_fields(conditions, index, k, n) {
                    assert(fixes_fields(conditions, index, k + 1, n - 1));
                }
                if fixes_fields(conditions, index, k + 1, n - 1) {
                    assert forall|i: int| k <= i < k + n implies fixed(
                        conditions,
                        #[trigger] index.fields[i],
                    ) by {
                        if i > k {
                            assert(fixed(conditions, index.fields[i]));
                        }
                    }
                }
            },
            None => {
                if fixes_fields(conditions, index, k, n) {
                    assert(fixed(conditions, index.fields[k]));
                }
            },
        }
    }
}

proof fn lemma_fixed(conditions: Seq<ConditionModel>, field: Seq<char>, sparse: bool, n: int)
    requires
        n == conditions.len(),
        forall|i: int|
            0 <= i < conditions.len() ==> (#[trigger] conditions[i] matches ConditionModel::Compare {
                value,
                ..
            } && counts(value)),
    ensures
        fixed_to(conditions, field, sparse, n) is Some <==> fixed(conditions, field),
{
    if fixed_to(conditions, field, sparse, n) is Some {
        lemma_fixing(conditions, field, sparse, n);
        let i = choose|i: int|
            0 <= i < n && fixes_to(#[trigger] conditions[i], field, sparse) == fixed_to(
                conditions,
                field,
                sparse,
                n,
            );
        assert(conditions[i] is Compare);
    }
    if fixed(conditions, field) {
        let i = choose|i: int|
            0 <= i < conditions.len() && (#[trigger] conditions[i] matches ConditionModel::Compare {
                field: on,
                op,
                ..
            } && on == field && op == Op::Eq);
        lemma_fixed_by(conditions, field, sparse, i, n);
    }
}

proof fn lemma_fixed_by(
    conditions: Seq<ConditionModel>,
    field: Seq<char>,
    sparse: bool,
    i: int,
    n: int,
)
    requires
        0 <= i < n <= conditions.len(),
        fixes_to(conditions[i], field, sparse) is Some,
    ensures
        fixed_to(conditions, field, sparse, n) is Some,
    decreases n,
{
    if i < n - 1 {
        lemma_fixed_by(conditions, field, sparse, i, n - 1);
    }
}

/// A sort is read from an index only if there is a limit, and so it is read, if
/// nothing else is asked for, from one on the first field to sort by that has
/// every document.
pub proof fn a_limited_sort_is_read_from_its_index(
    f: FilterModel,
    indexes: Seq<IndexModel>,
    plan: QueryPlan,
    k: int,
)
    requires
        is_plan(f, indexes, plan),
    ensures
        plan is IndexOrder ==> f.sort.len() > 0 && f.limit is Some,
        f.conditions.len() == 0 && f.sort.len() > 0 && f.limit is Some && 0 <= k < indexes.len()
            && indexes[k].fields == seq![f.sort[0].field] && !indexes[k].sparse && starless(
            path_steps(f.sort[0].field),
        ) ==> plan is IndexOrder,
{
    if f.conditions.len() == 0 && f.sort.len() > 0 && f.limit is Some && 0 <= k < indexes.len()
        && indexes[k].fields == seq![f.sort[0].field] && !indexes[k].sparse && starless(
        path_steps(f.sort[0].field),
    ) {
        assert(indexes[k].fields[0] == f.sort[0].field);
        assert(fixed_to(f.conditions, indexes[k].fields[0], indexes[k].sparse, 0) is None);
        assert(front_values(f.conditions, indexes[k], 0).len() == 0);
        assert(order_read(f, indexes[k]) is Some);
    }
}

} // verus!

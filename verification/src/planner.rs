//! Which index entries a filter has to look at.

use crate::catalog::entry::IndexModel;
use crate::catalog::{index_models, IndexMeta};
use crate::document::{DocModel, Document};
use crate::filter::{
    condition_models, lemma_list_view, meets, meets_all, values_meet, Condition, ConditionModel,
    Filter,
};
use crate::index::key::{
    compound_part, encode_value_in, joined_parts, lemma_single_value, value_key, values_key,
    MAX_COMPOUND_FIELDS,
};
use crate::index::range::{
    op_range, prefix_range, prefix_range_is_exact, range_for_in, ranges_cover_the_matches, KeyRange,
    RangeModel,
};
use crate::order::starts_with;
use crate::path::{is_multi, is_plain, lemma_plain_path, path_steps, starless, value_of, values_of};
use crate::query::{op_holds, related, Op, Relation};
use crate::secondary::{doc_has_key, field_values_of, kept, lemma_equal_parts, value_gives};
use crate::text::str_equal;
use vstd::prelude::*;

verus! {

/// Whether every document that meets the conditions has a key of an index in
/// a range, whatever its id.
pub open spec fn range_covers(
    conditions: Seq<ConditionModel>,
    index: IndexModel,
    range: RangeModel,
) -> bool {
    forall|m: DocModel, id: Seq<u8>|
        #![trigger meets_all(conditions, m), range_hits(m, index, id, range)]
        meets_all(conditions, m) && id.len() == 16 ==> range_hits(m, index, id, range)
}

/// Whether a document has a key of an index in a range.
pub open spec fn range_hits(
    m: DocModel,
    index: IndexModel,
    id: Seq<u8>,
    range: RangeModel,
) -> bool {
    exists|key: Seq<u8>| #[trigger] doc_has_key(m, index, id, key) && range.has(key)
}

/// Ranges of indexes, each index by its place in the list.
pub type Ranges = Seq<(int, RangeModel)>;

/// The ranges behind a vector of them.
pub open spec fn range_models(ranges: Seq<(usize, KeyRange)>) -> Ranges {
    Seq::new(ranges.len(), |i: int| (ranges[i].0 as int, ranges[i].1@))
}

/// Whether one of the ranges has a key of a document.
pub open spec fn ranges_hit(
    m: DocModel,
    indexes: Seq<IndexModel>,
    id: Seq<u8>,
    ranges: Ranges,
) -> bool {
    exists|r: int|
        0 <= r < ranges.len() && range_hits(
            m,
            indexes[(#[trigger] ranges[r]).0],
            id,
            ranges[r].1,
        )
}

/// Whether the ranges are of indexes in the list.
pub open spec fn ranges_within(indexes: Seq<IndexModel>, ranges: Ranges) -> bool {
    forall|r: int| 0 <= r < ranges.len() ==> 0 <= (#[trigger] ranges[r]).0 < indexes.len()
}

/// Whether ranges hold a key of every document that meets a condition.
pub open spec fn plan_covers(c: ConditionModel, indexes: Seq<IndexModel>, ranges: Ranges) -> bool {
    &&& ranges_within(indexes, ranges)
    &&& forall|m: DocModel, id: Seq<u8>|
        #![trigger meets(c, m), ranges_hit(m, indexes, id, ranges)]
        meets(c, m) && id.len() == 16 ==> ranges_hit(m, indexes, id, ranges)
}

/// Whether ranges hold a key of every document that meets all conditions.
pub open spec fn plans_cover(
    conditions: Seq<ConditionModel>,
    indexes: Seq<IndexModel>,
    ranges: Ranges,
) -> bool {
    &&& ranges_within(indexes, ranges)
    &&& forall|m: DocModel, id: Seq<u8>|
        #![trigger meets_all(conditions, m), ranges_hit(m, indexes, id, ranges)]
        meets_all(conditions, m) && id.len() == 16 ==> ranges_hit(m, indexes, id, ranges)
}

/// Whether an index on one field has a range for a comparison.
pub open spec fn has_range(index: IndexModel, field: Seq<char>, op: Op, value: DocModel) -> bool {
    &&& index.fields.len() == 1
    &&& index.fields[0] == field
    &&& !(index.sparse && value == DocModel::Null)
    &&& value_key(value, 1) matches Some(encoded) && op_range(op, encoded) is Some
}

/// Whether indexes on one field have ranges that hold every match of a
/// condition.
pub open spec fn plannable(c: ConditionModel, indexes: Seq<IndexModel>) -> bool
    decreases c,
{
    match c {
        ConditionModel::Compare { field, op, value } => exists|k: int|
            0 <= k < indexes.len() && has_range(#[trigger] indexes[k], field, op, value),
        ConditionModel::All(list) => exists|i: int|
            0 <= i < list.len() && plannable(#[trigger] list[i], indexes),
        ConditionModel::Any(list) => forall|i: int|
            0 <= i < list.len() ==> plannable(#[trigger] list[i], indexes),
        ConditionModel::Not(_) => false,
    }
}

/// Whether indexes on one field have ranges that hold every match of all
/// conditions.
pub open spec fn plannable_all(conditions: Seq<ConditionModel>, indexes: Seq<IndexModel>) -> bool {
    exists|i: int| 0 <= i < conditions.len() && plannable(#[trigger] conditions[i], indexes)
}

/// Whether every document that meets the conditions compares true with a
/// value in a field, which is one value.
pub open spec fn requires_value(
    conditions: Seq<ConditionModel>,
    field: Seq<char>,
    op: Op,
    value: DocModel,
) -> bool {
    forall|m: DocModel| #[trigger]
        meets_all(conditions, m) ==> op_holds(op, value_of(m, field), value)
}

/// A comparison on a plain path is one of one value.
proof fn lemma_requires(conditions: Seq<ConditionModel>, i: int, field: Seq<char>, op: Op, value: DocModel)
    requires
        0 <= i < conditions.len(),
        conditions[i] == (ConditionModel::Compare { field, op, value }),
        starless(path_steps(field)),
        op != Op::Ne,
        op != Op::Contains,
    ensures
        requires_value(conditions, field, op, value),
{
    assert forall|m: DocModel| #[trigger] meets_all(conditions, m) implies op_holds(
        op,
        value_of(m, field),
        value,
    ) by {
        assert(meets(conditions[i], m));
        reveal(is_plain);
        lemma_plain_path(m, path_steps(field));
        let found = values_of(m, field);
        let k = choose|k: int|
            0 <= k < found.len() && crate::filter::value_meets(op, #[trigger] found[k], value);
        assert(k == 0);
    }
}

/// Whether a condition compares a field in this way.
pub open spec fn compared(conditions: Seq<ConditionModel>, field: Seq<char>, op: Op) -> bool {
    exists|i: int|
        0 <= i < conditions.len() && compares(#[trigger] conditions[i], field, op)
}

/// Whether a condition is a comparison of a field.
pub open spec fn compares(c: ConditionModel, on: Seq<char>, by: Op) -> bool {
    c matches ConditionModel::Compare { field, op, .. } && field == on && op == by
}

/// The value that a condition fixes a field to: not null, for a sparse index.
pub open spec fn fixes_to(c: ConditionModel, on: Seq<char>, sparse: bool) -> Option<DocModel> {
    match c {
        ConditionModel::Compare { field, op, value } => if field == on && op == Op::Eq && !(sparse
            && value == DocModel::Null) {
            Some(value)
        } else {
            None
        },
        _ => None,
    }
}

/// The value that the first of `n` conditions to fix a field fixes it to.
pub open spec fn fixed_to(
    conditions: Seq<ConditionModel>,
    field: Seq<char>,
    sparse: bool,
    n: int,
) -> Option<DocModel>
    decreases n,
{
    if n <= 0 {
        None
    } else {
        match fixed_to(conditions, field, sparse, n - 1) {
            Some(value) => Some(value),
            None => fixes_to(conditions[n - 1], field, sparse),
        }
    }
}

/// Of the first conditions, only those before the first that fixes a field
/// matter.
proof fn lemma_fixed_to(
    conditions: Seq<ConditionModel>,
    field: Seq<char>,
    sparse: bool,
    n: int,
    m: int,
)
    requires
        n <= m,
        fixed_to(conditions, field, sparse, n) is Some,
    ensures
        fixed_to(conditions, field, sparse, m) == fixed_to(conditions, field, sparse, n),
    decreases m - n,
{
    if n < m {
        lemma_fixed_to(conditions, field, sparse, n, m - 1);
    }
}

/// The value an `Eq` condition fixes a field to: not null, for a sparse index.
fn fixed_value<'a>(conditions: &'a Vec<Condition>, field: &str, sparse: bool) -> (r: Option<
    &'a Document,
>)
    requires
        starless(path_steps(field@)),
    ensures
        r matches Some(value) ==> requires_value(
            condition_models(conditions@),
            field@,
            Op::Eq,
            value@,
        ) && (sparse ==> value@ != DocModel::Null),
        r is Some ==> compared(condition_models(conditions@), field@, Op::Eq),
        match r {
            Some(value) => fixed_to(
                condition_models(conditions@),
                field@,
                sparse,
                conditions@.len() as int,
            ) == Some(value@),
            None => fixed_to(
                condition_models(conditions@),
                field@,
                sparse,
                conditions@.len() as int,
            ) is None,
        },
{
    let n: usize = conditions.len();
    let ghost models = condition_models(conditions@);
    for i in 0..n
        invariant
            n == conditions@.len(),
            models == condition_models(conditions@),
            starless(path_steps(field@)),
            fixed_to(models, field@, sparse, i as int) is None,
    {
        assert(models[i as int] == conditions@[i as int]@);
        match &conditions[i] {
            Condition::Compare { field: on, op: Op::Eq, value } => {
                if str_equal(on.as_str(), field) && !(sparse && is_null(value)) {
                    proof {
                        assert(fixed_to(models, field@, sparse, i + 1) == Some(value@));
                        lemma_fixed_to(models, field@, sparse, i + 1, n as int);
                        lemma_requires(models, i as int, field@, Op::Eq, value@);
                    }
                    return Some(value);
                }
            },
            _ => {},
        }
    }
    None
}

pub(crate) fn is_null(value: &Document) -> (r: bool)
    ensures
        r == (value@ == DocModel::Null),
{
    matches!(value, Document::Null)
}

/// Whether a range, relative to where a field's value starts in a key, holds
/// the value of every document that meets the conditions.
pub open spec fn field_covered(
    conditions: Seq<ConditionModel>,
    field: Seq<char>,
    fields: int,
    sparse: bool,
    range: RangeModel,
) -> bool {
    forall|m: DocModel, rest: Seq<u8>|
        meets_all(conditions, m) ==> #[trigger] value_in(
            range,
            value_of(m, field),
            fields,
            sparse,
            rest,
        )
}

/// Whether a range holds a value, whatever comes after it.
pub open spec fn value_in(
    range: RangeModel,
    held: DocModel,
    fields: int,
    sparse: bool,
    rest: Seq<u8>,
) -> bool {
    &&& range.has(compound_part(held, fields) + rest)
    &&& value_key(held, fields) is Some
    &&& sparse ==> held != DocModel::Null
}

/// The keys one condition on a field leaves.
proof fn lemma_field_covered(
    conditions: Seq<ConditionModel>,
    i: int,
    field: Seq<char>,
    op: Op,
    value: DocModel,
    fields: int,
    sparse: bool,
    range: RangeModel,
)
    requires
        0 <= i < conditions.len(),
        conditions[i] == (ConditionModel::Compare { field, op, value }),
        starless(path_steps(field)),
        1 <= fields <= MAX_COMPOUND_FIELDS,
        value_key(value, fields) matches Some(encoded) && op_range(op, encoded) == Some(range),
        sparse ==> value != DocModel::Null,
    ensures
        field_covered(conditions, field, fields, sparse, range),
{
    lemma_requires(conditions, i, field, op, value);
    assert forall|m: DocModel, rest: Seq<u8>| meets_all(conditions, m) implies #[trigger] value_in(
        range,
        value_of(m, field),
        fields,
        sparse,
        rest,
    ) by {
        assert(op_holds(op, value_of(m, field), value));
        lemma_value_covered(op, value_of(m, field), value, fields, rest, range);
    }
}

/// A value that compares true is in the range, and not null if the other
/// isn't.
proof fn lemma_value_covered(
    op: Op,
    held: DocModel,
    value: DocModel,
    fields: int,
    rest: Seq<u8>,
    range: RangeModel,
)
    requires
        op_holds(op, held, value),
        op != Op::Ne,
        1 <= fields <= MAX_COMPOUND_FIELDS,
        op_range(op, value_key(value, fields)->Some_0) == Some(range),
    ensures
        range.has(compound_part(held, fields) + rest),
        value_key(held, fields) is Some,
        value != DocModel::Null ==> held != DocModel::Null,
{
    ranges_cover_the_matches(op, held, value, fields, rest);
}

/// What two ranges share.
fn meet(
    a: KeyRange,
    b: KeyRange,
    Ghost(models): Ghost<Seq<ConditionModel>>,
    field: &str,
    sparse: bool,
    fields: usize,
) -> (r: KeyRange)
    ensures
        forall|key: Seq<u8>| #[trigger] r@.has(key) <==> a@.has(key) && b@.has(key),
        field_covered(models, field@, fields as int, sparse, a@) && field_covered(
            models,
            field@,
            fields as int,
            sparse,
            b@,
        ) ==> field_covered(models, field@, fields as int, sparse, r@),
{
    let ghost p = a@;
    let ghost q = b@;
    let r = a.intersect(b);
    proof {
        if field_covered(models, field@, fields as int, sparse, p) && field_covered(
            models,
            field@,
            fields as int,
            sparse,
            q,
        ) {
            assert forall|m: DocModel, rest: Seq<u8>| meets_all(models, m) implies #[trigger]
                value_in(r@, value_of(m, field@), fields as int, sparse, rest) by {
                assert(value_in(p, value_of(m, field@), fields as int, sparse, rest));
                assert(value_in(q, value_of(m, field@), fields as int, sparse, rest));
            }
        }
    }
    r
}

/// The range that a condition on a field leaves, relative to where its value
/// starts: none for null in a sparse index, which lacks it.
pub open spec fn condition_range(
    c: ConditionModel,
    on: Seq<char>,
    sparse: bool,
    fields: int,
) -> Option<RangeModel> {
    match c {
        ConditionModel::Compare { field, op, value } => if field == on && !(sparse && value
            == DocModel::Null) {
            match value_key(value, fields) {
                Some(encoded) => op_range(op, encoded),
                None => None,
            }
        } else {
            None
        },
        _ => None,
    }
}

/// Whether one of the first `n` conditions leaves a range of a field.
pub open spec fn field_narrowed(
    conditions: Seq<ConditionModel>,
    field: Seq<char>,
    sparse: bool,
    fields: int,
    n: int,
) -> bool {
    exists|i: int|
        0 <= i < n && condition_range(#[trigger] conditions[i], field, sparse, fields) is Some
}

/// Whether bytes are in every range that the first `n` conditions leave of a
/// field.
pub open spec fn in_each(
    conditions: Seq<ConditionModel>,
    field: Seq<char>,
    sparse: bool,
    fields: int,
    n: int,
    key: Seq<u8>,
) -> bool {
    forall|i: int|
        0 <= i < n ==> (condition_range(#[trigger] conditions[i], field, sparse, fields) matches Some(
            range,
        ) ==> range.has(key))
}

/// One more condition narrows by its own range, if it leaves one.
proof fn lemma_one_more(
    conditions: Seq<ConditionModel>,
    field: Seq<char>,
    sparse: bool,
    fields: int,
    n: int,
)
    requires
        0 <= n < conditions.len(),
    ensures
        field_narrowed(conditions, field, sparse, fields, n + 1) <==> field_narrowed(
            conditions,
            field,
            sparse,
            fields,
            n,
        ) || condition_range(conditions[n], field, sparse, fields) is Some,
        forall|key: Seq<u8>| #[trigger]
            in_each(conditions, field, sparse, fields, n + 1, key) <==> in_each(
                conditions,
                field,
                sparse,
                fields,
                n,
                key,
            ) && (condition_range(conditions[n], field, sparse, fields) matches Some(range)
                ==> range.has(key)),
        !field_narrowed(conditions, field, sparse, fields, n) ==> forall|key: Seq<u8>| #[trigger]
            in_each(conditions, field, sparse, fields, n, key),
{
    if field_narrowed(conditions, field, sparse, fields, n + 1) {
        let i = choose|i: int|
            0 <= i < n + 1 && condition_range(
                #[trigger] conditions[i],
                field,
                sparse,
                fields,
            ) is Some;
        if i < n {
            assert(condition_range(conditions[i], field, sparse, fields) is Some);
        }
    }
    if field_narrowed(conditions, field, sparse, fields, n) {
        let i = choose|i: int|
            0 <= i < n && condition_range(#[trigger] conditions[i], field, sparse, fields) is Some;
        assert(0 <= i < n + 1);
    }
    assert forall|key: Seq<u8>| #[trigger]
        in_each(conditions, field, sparse, fields, n + 1, key) <==> in_each(
            conditions,
            field,
            sparse,
            fields,
            n,
            key,
        ) && (condition_range(conditions[n], field, sparse, fields) matches Some(range)
            ==> range.has(key)) by {
        let here = condition_range(conditions[n], field, sparse, fields);
        if in_each(conditions, field, sparse, fields, n, key) && (here matches Some(range)
            ==> range.has(key)) {
            assert forall|i: int| 0 <= i < n + 1 implies (condition_range(
                #[trigger] conditions[i],
                field,
                sparse,
                fields,
            ) matches Some(range) ==> range.has(key)) by {}
        }
    }
}

/// The keys the conditions on a field leave, relative to where its value
/// starts.
fn field_range(conditions: &Vec<Condition>, field: &str, sparse: bool, fields: usize) -> (r: Option<
    KeyRange,
>)
    requires
        starless(path_steps(field@)),
        1 <= fields <= MAX_COMPOUND_FIELDS,
    ensures
        r matches Some(range) ==> field_covered(
            condition_models(conditions@),
            field@,
            fields as int,
            sparse,
            range@,
        ),
        r is Some <==> field_narrowed(
            condition_models(conditions@),
            field@,
            sparse,
            fields as int,
            conditions@.len() as int,
        ),
        r matches Some(range) ==> forall|key: Seq<u8>| #[trigger]
            range@.has(key) <==> in_each(
                condition_models(conditions@),
                field@,
                sparse,
                fields as int,
                conditions@.len() as int,
                key,
            ),
{
    let n: usize = conditions.len();
    let ghost models = condition_models(conditions@);
    let mut range: Option<KeyRange> = None;
    for i in 0..n
        invariant
            n == conditions@.len(),
            models == condition_models(conditions@),
            starless(path_steps(field@)),
            1 <= fields <= MAX_COMPOUND_FIELDS,
            range matches Some(so_far) ==> field_covered(
                models,
                field@,
                fields as int,
                sparse,
                so_far@,
            ),
            range is Some <==> field_narrowed(models, field@, sparse, fields as int, i as int),
            range matches Some(so_far) ==> forall|key: Seq<u8>| #[trigger]
                so_far@.has(key) <==> in_each(
                    models,
                    field@,
                    sparse,
                    fields as int,
                    i as int,
                    key,
                ),
    {
        proof {
            assert(models[i as int] == conditions@[i as int]@);
            lemma_one_more(models, field@, sparse, fields as int, i as int);
        }
        match &conditions[i] {
            Condition::Compare { field: on, op, value } => {
                if str_equal(on.as_str(), field) && !(sparse && is_null(value)) {
                    match range_for_in(op, value, fields) {
                        Some(more) => {
                            proof {
                                assert(models[i as int] == conditions@[i as int]@);
                                lemma_field_covered(
                                    models,
                                    i as int,
                                    field@,
                                    *op,
                                    value@,
                                    fields as int,
                                    sparse,
                                    more@,
                                );
                            }
                            range = match range {
                                Some(so_far) => Some(meet(so_far, more, Ghost(models), field, sparse, fields)),
                                None => Some(more),
                            };
                        },
                        None => {},
                    }
                }
            },
            _ => {},
        }
    }
    range
}

/// Parts one after the other are the parts of both.
pub proof fn lemma_joined_parts(a: Seq<DocModel>, b: Seq<DocModel>, fields: int)
    ensures
        joined_parts(a + b, fields) == joined_parts(a, fields) + joined_parts(b, fields),
    decreases a.len(),
{
    if a.len() == 0 {
        assert(a + b =~= b);
        assert(joined_parts(a, fields) + joined_parts(b, fields) =~= joined_parts(b, fields));
    } else {
        assert((a + b).skip(1) =~= a.skip(1) + b);
        lemma_joined_parts(a.skip(1), b, fields);
        assert(joined_parts(a + b, fields) =~= joined_parts(a, fields) + joined_parts(b, fields));
    }
}

/// Whether every document that meets the conditions is equal to `values` in
/// the first fields of an index.
pub open spec fn fixes(
    conditions: Seq<ConditionModel>,
    index: IndexModel,
    values: Seq<DocModel>,
) -> bool {
    &&& values.len() <= index.fields.len()
    &&& forall|j: int|
        0 <= j < values.len() ==> requires_value(
            conditions,
            #[trigger] index.fields[j],
            Op::Eq,
            values[j],
        ) && starless(path_steps(index.fields[j])) && (index.sparse ==> values[j]
            != DocModel::Null)
}

/// The value part of a document's key begins with the parts of the values
/// its first fields are fixed to.
pub proof fn lemma_fixed_front(
    conditions: Seq<ConditionModel>,
    index: IndexModel,
    values: Seq<DocModel>,
    m: DocModel,
)
    requires
        fixes(conditions, index, values),
        meets_all(conditions, m),
        1 <= index.fields.len() <= MAX_COMPOUND_FIELDS,
    ensures
        ({
            let n = index.fields.len() as int;
            let found = field_values_of(m, index);
            &&& values_key(found) == joined_parts(values, n) + joined_parts(
                found.skip(values.len() as int),
                n,
            )
            &&& values.len() > 0 ==> kept(index, found[0]) && value_key(found[0], n) is Some
        }),
{
    let n = index.fields.len() as int;
    let found = field_values_of(m, index);
    let k = values.len() as int;
    let front = found.take(k);
    assert(front + found.skip(k) =~= found);
    lemma_joined_parts(front, found.skip(k), n);
    assert forall|j: int| 0 <= j < k implies related(#[trigger] front[j], values[j]) == Some(
        Relation::Equal,
    ) by {
        assert(requires_value(conditions, index.fields[j], Op::Eq, values[j]));
        assert(op_holds(Op::Eq, value_of(m, index.fields[j]), values[j]));
        assert(front[j] == value_of(m, index.fields[j]));
    }
    lemma_equal_parts(front, values, n);
    if k > 0 {
        assert(related(front[0], values[0]) == Some(Relation::Equal));
        crate::index::key::key_order_is_filter_order(front[0], values[0], n);
    }
}

/// A document's key in an index on plain paths.
pub proof fn lemma_plain_key(m: DocModel, index: IndexModel, id: Seq<u8>, i: int)
    requires
        1 <= index.fields.len() <= MAX_COMPOUND_FIELDS,
        0 <= i < index.fields.len(),
        kept(index, field_values_of(m, index)[i]),
        index.fields.len() == 1 ==> starless(path_steps(index.fields[0])) && value_key(
            field_values_of(m, index)[0],
            1,
        ) is Some,
    ensures
        doc_has_key(m, index, id, values_key(field_values_of(m, index)) + id),
{
    let found = field_values_of(m, index);
    if index.fields.len() == 1 {
        reveal(is_plain);
        lemma_plain_path(m, path_steps(index.fields[0]));
        let all = values_of(m, index.fields[0]);
        assert(all[0] == found[0]);
        assert(found =~= seq![found[0]]);
        lemma_single_value(found[0]);
        assert(value_gives(index, all[0], id, values_key(found) + id));
    }
}

/// The values that an index's fields from the one at `k` on are fixed to, up
/// to the first that isn't fixed to a value with a key.
pub open spec fn front_values(
    conditions: Seq<ConditionModel>,
    index: IndexModel,
    k: int,
) -> Seq<DocModel>
    decreases index.fields.len() - k,
{
    if 0 <= k < index.fields.len() && starless(path_steps(index.fields[k])) {
        match fixed_to(conditions, index.fields[k], index.sparse, conditions.len() as int) {
            Some(value) => if value_key(value, index.fields.len() as int) is Some {
                seq![value] + front_values(conditions, index, k + 1)
            } else {
                seq![]
            },
            None => seq![],
        }
    } else {
        seq![]
    }
}

/// One more field is fixed.
proof fn lemma_fixes_more(
    conditions: Seq<ConditionModel>,
    index: IndexModel,
    values: Seq<DocModel>,
    value: DocModel,
)
    requires
        fixes(conditions, index, values),
        values.len() < index.fields.len(),
        requires_value(conditions, index.fields[values.len() as int], Op::Eq, value),
        starless(path_steps(index.fields[values.len() as int])),
        index.sparse ==> value != DocModel::Null,
    ensures
        fixes(conditions, index, values.push(value)),
{
    let more = values.push(value);
    assert forall|j: int| 0 <= j < more.len() implies requires_value(
        conditions,
        #[trigger] index.fields[j],
        Op::Eq,
        more[j],
    ) && starless(path_steps(index.fields[j])) && (index.sparse ==> more[j]
        != DocModel::Null) by {
        if j < values.len() {
            assert(more[j] == values[j]);
            assert(requires_value(conditions, index.fields[j], Op::Eq, values[j]));
        } else {
            assert(j == values.len());
            assert(more[j] == value);
            assert(requires_value(conditions, index.fields[j], Op::Eq, value));
        }
    }
}

/// One more value's part.
proof fn lemma_part_more(values: Seq<DocModel>, value: DocModel, n: int, part: Seq<u8>)
    requires
        value_key(value, n) == Some(part),
    ensures
        joined_parts(values.push(value), n) == joined_parts(values, n) + part,
{
    let one = seq![value];
    lemma_joined_parts(values, one, n);
    assert(one.skip(1).len() == 0);
    assert(joined_parts(one.skip(1), n) =~= seq![]);
    assert(joined_parts(one, n) =~= part);
    assert(values.push(value) =~= values + one);
}

/// The values a compound index's first fields are fixed to, and the bytes
/// their keys begin with.
pub fn fixed_front(conditions: &Vec<Condition>, index: &IndexMeta) -> (r: (
    Vec<u8>,
    usize,
    Ghost<Seq<DocModel>>,
))
    requires
        1 <= index@.fields.len() <= MAX_COMPOUND_FIELDS,
    ensures
        r.1 == r.2@.len() <= index@.fields.len(),
        fixes(condition_models(conditions@), index@, r.2@),
        r.2@ == front_values(condition_models(conditions@), index@, 0),
        r.0@ == joined_parts(r.2@, index@.fields.len() as int),
        r.1 > 0 ==> compared(condition_models(conditions@), index@.fields[0], Op::Eq),
{
    let n: usize = index.fields.len();
    let mut front: Vec<u8> = Vec::new();
    let ghost mut values: Seq<DocModel> = seq![];
    assert(values + front_values(condition_models(conditions@), index@, 0) =~= front_values(
        condition_models(conditions@),
        index@,
        0,
    ));
    let mut i: usize = 0;
    while i < n
        invariant
            n == index.fields@.len() == index@.fields.len(),
            1 <= n <= MAX_COMPOUND_FIELDS,
            i <= n,
            values.len() == i,
            fixes(condition_models(conditions@), index@, values),
            front_values(condition_models(conditions@), index@, 0) == values + front_values(
                condition_models(conditions@),
                index@,
                i as int,
            ),
            front@ == joined_parts(values, n as int),
            i > 0 ==> compared(condition_models(conditions@), index@.fields[0], Op::Eq),
        decreases n - i,
    {
        let field: &str = index.fields[i].as_str();
        assert(index@.fields[i as int] == field@);
        assert(values + Seq::<DocModel>::empty() =~= values);
        let ghost ahead = front_values(condition_models(conditions@), index@, i + 1);
        if is_multi(field) {
            return (front, i, Ghost(values));
        }
        let value: &Document = match fixed_value(conditions, field, index.sparse) {
            Some(value) => value,
            None => return (front, i, Ghost(values)),
        };
        let part = match encode_value_in(value, n) {
            Some(part) => part,
            None => return (front, i, Ghost(values)),
        };
        front.extend_from_slice(part.as_slice());
        proof {
            let more = values.push(value@);
            lemma_part_more(values, value@, n as int, part@);
            lemma_fixes_more(condition_models(conditions@), index@, values, value@);
            assert(values + (seq![value@] + ahead) =~= more + ahead);
            values = more;
        }
        i += 1;
    }
    assert(values + Seq::<DocModel>::empty() =~= values);
    (front, n, Ghost(values))
}

/// Whether conditions leave a range of the field after those that are fixed.
pub open spec fn next_narrowed(conditions: Seq<ConditionModel>, index: IndexModel) -> bool {
    let k = front_values(conditions, index, 0).len() as int;
    k < index.fields.len() && starless(path_steps(index.fields[k])) && field_narrowed(
        conditions,
        index.fields[k],
        index.sparse,
        index.fields.len() as int,
        conditions.len() as int,
    )
}

/// How well conditions narrow an index on plain paths: twice the number of
/// fields fixed, and one more for a range on the next.
pub open spec fn plain_score(conditions: Seq<ConditionModel>, index: IndexModel) -> int {
    2 * front_values(conditions, index, 0).len() + if next_narrowed(conditions, index) {
        1int
    } else {
        0
    }
}

/// Whether a key begins with the values that fields are fixed to, and goes on
/// within every range of the next.
pub open spec fn plain_has(
    conditions: Seq<ConditionModel>,
    index: IndexModel,
    key: Seq<u8>,
) -> bool {
    let values = front_values(conditions, index, 0);
    let front = joined_parts(values, index.fields.len() as int);
    &&& starts_with(key, front)
    &&& next_narrowed(conditions, index) ==> in_each(
        conditions,
        index.fields[values.len() as int],
        index.sparse,
        index.fields.len() as int,
        conditions.len() as int,
        key.skip(front.len() as int),
    )
}

/// What is fixed of an index's keys: the first fields' values, and the bytes
/// that the keys begin with.
spec fn fronted(
    conditions: Seq<ConditionModel>,
    index: IndexModel,
    values: Seq<DocModel>,
    front: Seq<u8>,
) -> bool {
    &&& 1 <= index.fields.len() <= MAX_COMPOUND_FIELDS
    &&& values.len() <= index.fields.len()
    &&& fixes(conditions, index, values)
    &&& values == front_values(conditions, index, 0)
    &&& front == joined_parts(values, index.fields.len() as int)
}

/// A document that meets the conditions has its key in the range that the
/// conditions on the next field leave.
proof fn lemma_next_hits(
    conditions: Seq<ConditionModel>,
    index: IndexModel,
    values: Seq<DocModel>,
    front: Seq<u8>,
    inner: RangeModel,
    range: RangeModel,
    m: DocModel,
    id: Seq<u8>,
)
    requires
        fronted(conditions, index, values, front),
        values.len() < index.fields.len(),
        index.fields.len() == 1 ==> starless(path_steps(index.fields[0])),
        field_covered(
            conditions,
            index.fields[values.len() as int],
            index.fields.len() as int,
            index.sparse,
            inner,
        ),
        forall|key: Seq<u8>|
            range.has(key) <==> starts_with(key, front) && inner.has(key.skip(front.len() as int)),
        meets_all(conditions, m),
        id.len() == 16,
    ensures
        range_hits(m, index, id, range),
{
    lemma_fixed_front(conditions, index, values, m);
    let n = index.fields.len() as int;
    let k = values.len() as int;
    let found = field_values_of(m, index);
    let rest = joined_parts(found.skip(k).skip(1), n) + id;
    assert(found.skip(k)[0] == found[k]);
    assert(found[k] == value_of(m, index.fields[k]));
    assert(value_in(inner, value_of(m, index.fields[k]), n, index.sparse, rest));
    let key = values_key(found) + id;
    assert(key.skip(front.len() as int) =~= compound_part(found[k], n) + rest);
    assert(key.take(front.len() as int) =~= front);
    lemma_plain_key(m, index, id, k);
    assert(range.has(key));
}

/// A document that meets the conditions has its key where the fixed fields'
/// values lead.
proof fn lemma_front_hits(
    conditions: Seq<ConditionModel>,
    index: IndexModel,
    values: Seq<DocModel>,
    front: Seq<u8>,
    m: DocModel,
    id: Seq<u8>,
)
    requires
        fronted(conditions, index, values, front),
        values.len() > 0,
        meets_all(conditions, m),
        id.len() == 16,
    ensures
        range_hits(m, index, id, prefix_range(front)),
{
    lemma_fixed_front(conditions, index, values, m);
    let found = field_values_of(m, index);
    let key = values_key(found) + id;
    assert(key.take(front.len() as int) =~= front);
    prefix_range_is_exact(front, key);
    assert(requires_value(conditions, index.fields[0], Op::Eq, values[0]));
    lemma_plain_key(m, index, id, 0);
    assert(prefix_range(front).has(key));
}

/// The range that the conditions on the field after the fixed ones leave.
fn next_range(
    conditions: &Vec<Condition>,
    index: &IndexMeta,
    front: &Vec<u8>,
    fixed: usize,
    Ghost(values): Ghost<Seq<DocModel>>,
) -> (r: Option<KeyRange>)
    requires
        fixed == values.len(),
        fronted(condition_models(conditions@), index@, values, front@),
    ensures
        r is Some <==> next_narrowed(condition_models(conditions@), index@),
        r matches Some(range) ==> range_covers(
            condition_models(conditions@),
            index@,
            range@,
        ) && forall|key: Seq<u8>| #[trigger]
            range@.has(key) <==> plain_has(condition_models(conditions@), index@, key),
{
    let n: usize = index.fields.len();
    let ghost models = condition_models(conditions@);
    if fixed >= n {
        return None;
    }
    let field: &str = index.fields[fixed].as_str();
    assert(index@.fields[fixed as int] == field@);
    if is_multi(field) {
        return None;
    }
    match field_range(conditions, field, index.sparse, n) {
        Some(more) => {
            let ghost inner = more@;
            let range = more.under(front.as_slice());
            proof {
                assert forall|m: DocModel, id: Seq<u8>|
                    #![trigger meets_all(models, m), range_hits(m, index@, id, range@)]
                    meets_all(models, m) && id.len() == 16 implies range_hits(
                    m,
                    index@,
                    id,
                    range@,
                ) by {
                    lemma_next_hits(models, index@, values, front@, inner, range@, m, id);
                }
            }
            Some(range)
        },
        None => None,
    }
}

/// The range of an index on plain paths that holds every match, and how well
/// it narrows: twice the number of fields fixed, and one more for a range on
/// the next.
pub fn plain_range(conditions: &Vec<Condition>, index: &IndexMeta) -> (r: Option<(usize, KeyRange)>)
    requires
        1 <= index@.fields.len() <= MAX_COMPOUND_FIELDS,
    ensures
        r matches Some((_, range)) ==> range_covers(
            condition_models(conditions@),
            index@,
            range@,
        ),
        r is Some <==> plain_score(condition_models(conditions@), index@) > 0,
        r matches Some((score, range)) ==> score == plain_score(
            condition_models(conditions@),
            index@,
        ) && forall|key: Seq<u8>| #[trigger]
            range@.has(key) <==> plain_has(condition_models(conditions@), index@, key),
{
    let ghost models = condition_models(conditions@);
    let (front, fixed, values) = fixed_front(conditions, index);
    match next_range(conditions, index, &front, fixed, values) {
        Some(range) => return Some((2 * fixed + 1, range)),
        None => {},
    }
    if fixed == 0 {
        return None;
    }
    let range = KeyRange::prefixed(front.as_slice());
    proof {
        assert forall|m: DocModel, id: Seq<u8>|
            #![trigger meets_all(models, m), range_hits(m, index@, id, range@)]
            meets_all(models, m) && id.len() == 16 implies range_hits(m, index@, id, range@) by {
            lemma_front_hits(models, index@, values@, front@, m, id);
        }
    }
    Some((2 * fixed, range))
}

/// The range of a one-field index that a single comparison on its field
/// leaves, on a plain path or on array elements.
fn compare_range(field: &str, op: Op, value: &Document, index: &IndexMeta) -> (r: Option<KeyRange>)
    ensures
        r matches Some(range) ==> index@.fields.len() == 1 && forall|m: DocModel, id: Seq<u8>|
            #![trigger range_hits(m, index@, id, range@), values_meet(op, values_of(m, field@), value@)]
            values_meet(op, values_of(m, field@), value@) ==> range_hits(m, index@, id, range@),
        r is Some <==> has_range(index@, field@, op, value@),
        r matches Some(range) ==> op_range(op, value_key(value@, 1)->Some_0) == Some(range@),
{
    if index.fields.len() != 1 || !str_equal(index.fields[0].as_str(), field) || (index.sparse
        && is_null(value)) {
        return None;
    }
    assert(index@.fields[0] == field@);
    let range = match range_for_in(&op, value, 1) {
        Some(range) => range,
        None => return None,
    };
    proof {
        assert forall|m: DocModel, id: Seq<u8>|
            #![trigger range_hits(m, index@, id, range@), values_meet(op, values_of(m, field@), value@)]
            values_meet(op, values_of(m, field@), value@) implies range_hits(
            m,
            index@,
            id,
            range@,
        ) by {
            let found = values_of(m, field@);
            let k = choose|k: int|
                0 <= k < found.len() && crate::filter::value_meets(op, #[trigger] found[k], value@);
            ranges_cover_the_matches(op, found[k], value@, 1, id);
            let key = value_key(found[k], 1)->Some_0 + id;
            assert(value_gives(index@, found[k], id, key));
            assert(doc_has_key(m, index@, id, key));
        }
    }
    Some(range)
}

/// How well a comparison narrows.
pub open spec fn op_score(op: Op) -> int {
    if op == Op::Eq {
        2
    } else {
        1
    }
}

/// How well the first of `n` conditions to leave a range of an index on array
/// elements narrows, and the range: an element can meet each condition of
/// several on its own, so no two can be put together.
pub open spec fn first_range(conditions: Seq<ConditionModel>, index: IndexModel, n: int) -> Option<
    (int, RangeModel),
>
    decreases n,
{
    if n <= 0 {
        None
    } else {
        match first_range(conditions, index, n - 1) {
            Some(found) => Some(found),
            None => match condition_range(
                conditions[n - 1],
                index.fields[0],
                index.sparse,
                1,
            ) {
                Some(range) => Some((op_score(conditions[n - 1]->Compare_op), range)),
                None => None,
            },
        }
    }
}

proof fn lemma_first_range(conditions: Seq<ConditionModel>, index: IndexModel, n: int, m: int)
    requires
        n <= m,
        first_range(conditions, index, n) is Some,
    ensures
        first_range(conditions, index, m) == first_range(conditions, index, n),
    decreases m - n,
{
    if n < m {
        lemma_first_range(conditions, index, n, m - 1);
    }
}

/// Whether an index is on plain paths: a compound one always is.
pub open spec fn on_plain_paths(index: IndexModel) -> bool {
    index.fields.len() > 1 || starless(path_steps(index.fields[0]))
}

/// How well conditions narrow an index; 0 if they don't.
pub open spec fn index_score(conditions: Seq<ConditionModel>, index: IndexModel) -> int {
    if !(1 <= index.fields.len() <= MAX_COMPOUND_FIELDS) {
        0
    } else if on_plain_paths(index) {
        plain_score(conditions, index)
    } else {
        match first_range(conditions, index, conditions.len() as int) {
            Some((score, _)) => score,
            None => 0,
        }
    }
}

/// Whether a key of an index is one that conditions leave.
pub open spec fn index_has(
    conditions: Seq<ConditionModel>,
    index: IndexModel,
    key: Seq<u8>,
) -> bool {
    if on_plain_paths(index) {
        plain_has(conditions, index, key)
    } else {
        first_range(conditions, index, conditions.len() as int) matches Some((_, range))
            && range.has(key)
    }
}

/// How well a comparison narrows.
fn compare_score(op: Op) -> (score: usize)
    ensures
        score == op_score(op),
{
    match op {
        Op::Eq => 2,
        _ => 1,
    }
}

/// The range of an index that holds every match of the conditions, with how
/// well it narrows.
fn index_range(conditions: &Vec<Condition>, index: &IndexMeta) -> (r: Option<(usize, KeyRange)>)
    ensures
        r matches Some((_, range)) ==> range_covers(
            condition_models(conditions@),
            index@,
            range@,
        ),
        r is Some <==> index_score(condition_models(conditions@), index@) > 0,
        r matches Some((score, range)) ==> score == index_score(
            condition_models(conditions@),
            index@,
        ) && forall|key: Seq<u8>| #[trigger]
            range@.has(key) <==> index_has(condition_models(conditions@), index@, key),
{
    let n: usize = index.fields.len();
    assert(n == index@.fields.len());
    if n < 1 || n > MAX_COMPOUND_FIELDS {
        return None;
    }
    assert(index@.fields[0] == index.fields@[0]@);
    if n > 1 || !is_multi(index.fields[0].as_str()) {
        return plain_range(conditions, index);
    }
    let total: usize = conditions.len();
    let ghost models = condition_models(conditions@);
    for i in 0..total
        invariant
            total == conditions@.len(),
            models == condition_models(conditions@),
            index@.fields.len() == 1,
            !on_plain_paths(index@),
            first_range(models, index@, i as int) is None,
    {
        assert(models[i as int] == conditions@[i as int]@);
        match &conditions[i] {
            Condition::Compare { field, op, value } => {
                match compare_range(field.as_str(), *op, value, index) {
                    Some(range) => {
                        proof {
                            assert(first_range(models, index@, i + 1) == Some(
                                (op_score(*op), range@),
                            ));
                            lemma_first_range(models, index@, i + 1, total as int);
                            assert forall|m: DocModel, id: Seq<u8>|
                                #![trigger meets_all(models, m), range_hits(m, index@, id, range@)]
                                meets_all(models, m) && id.len() == 16 implies range_hits(
                                m,
                                index@,
                                id,
                                range@,
                            ) by {
                                assert(meets(models[i as int], m));
                                assert(values_meet(*op, values_of(m, field@), value@));
                            }
                        }
                        return Some((compare_score(*op), range));
                    },
                    None => {},
                }
            },
            _ => {},
        }
    }
    None
}

/// A range that covers is a plan of one.
proof fn lemma_one_range(
    conditions: Seq<ConditionModel>,
    indexes: Seq<IndexModel>,
    k: int,
    range: RangeModel,
    ranges: Ranges,
)
    requires
        0 <= k < indexes.len(),
        range_covers(conditions, indexes[k], range),
        ranges == seq![(k, range)],
    ensures
        plans_cover(conditions, indexes, ranges),
{
    assert forall|m: DocModel, id: Seq<u8>|
        #![trigger meets_all(conditions, m), ranges_hit(m, indexes, id, ranges)]
        meets_all(conditions, m) && id.len() == 16 implies ranges_hit(m, indexes, id, ranges) by {
        assert(range_hits(m, indexes[k], id, range));
        assert(ranges[0] == (k, range));
    }
}

/// Whether conditions narrow an index, of the first `n`, more than any before
/// it and no less than any after it.
pub open spec fn narrows_most(
    conditions: Seq<ConditionModel>,
    indexes: Seq<IndexModel>,
    k: int,
    n: int,
) -> bool {
    &&& index_score(conditions, indexes[k]) > 0
    &&& forall|j: int|
        0 <= j < n ==> index_score(conditions, #[trigger] indexes[j]) <= index_score(
            conditions,
            indexes[k],
        )
    &&& forall|j: int|
        0 <= j < k ==> index_score(conditions, #[trigger] indexes[j]) < index_score(
            conditions,
            indexes[k],
        )
}

/// The index that narrows the conditions most, the first of equals, and its
/// range.
fn best_index(conditions: &Vec<Condition>, indexes: &[IndexMeta]) -> (r: Option<(usize, KeyRange)>)
    ensures
        r matches Some((k, range)) ==> k < indexes@.len() && range_covers(
            condition_models(conditions@),
            index_models(indexes@)[k as int],
            range@,
        ),
        r is Some <==> exists|k: int|
            0 <= k < indexes@.len() && index_score(
                condition_models(conditions@),
                #[trigger] index_models(indexes@)[k],
            ) > 0,
        r matches Some((k, range)) ==> narrows_most(
            condition_models(conditions@),
            index_models(indexes@),
            k as int,
            indexes@.len() as int,
        ) && forall|key: Seq<u8>| #[trigger]
            range@.has(key) <==> index_has(
                condition_models(conditions@),
                index_models(indexes@)[k as int],
                key,
            ),
{
    let n: usize = indexes.len();
    let ghost models = condition_models(conditions@);
    let ghost list = index_models(indexes@);
    let mut best: Option<(usize, KeyRange)> = None;
    let mut score: usize = 0;
    for k in 0..n
        invariant
            n == indexes@.len(),
            models == condition_models(conditions@),
            list == index_models(indexes@),
            best matches Some((k, range)) ==> k < indexes@.len() && range_covers(
                condition_models(conditions@),
                index_models(indexes@)[k as int],
                range@,
            ),
            best is None ==> score == 0 && forall|j: int|
                0 <= j < k ==> index_score(models, #[trigger] list[j]) <= 0,
            best matches Some((b, range)) ==> b < k && score == index_score(models, list[b as int])
                && narrows_most(models, list, b as int, k as int) && forall|key: Seq<u8>| #[trigger]
                range@.has(key) <==> index_has(models, list[b as int], key),
    {
        assert(list[k as int] == indexes@[k as int]@);
        match index_range(conditions, &indexes[k]) {
            Some((narrows, range)) => {
                if narrows > score {
                    score = narrows;
                    best = Some((k, range));
                }
            },
            None => {},
        }
    }
    best
}

/// The index that narrows the conditions most, the first of equals.
pub open spec fn best_place(
    conditions: Seq<ConditionModel>,
    indexes: Seq<IndexModel>,
) -> Option<int> {
    if exists|k: int|
        0 <= k < indexes.len() && index_score(conditions, #[trigger] indexes[k]) > 0 {
        Some(
            choose|k: int|
                0 <= k < indexes.len() && #[trigger] narrows_most(
                    conditions,
                    indexes,
                    k,
                    indexes.len() as int,
                ),
        )
    } else {
        None
    }
}

proof fn lemma_best_place(conditions: Seq<ConditionModel>, indexes: Seq<IndexModel>, k: int)
    requires
        0 <= k < indexes.len(),
        narrows_most(conditions, indexes, k, indexes.len() as int),
    ensures
        best_place(conditions, indexes) == Some(k),
{
    assert(index_score(conditions, indexes[k]) > 0);
    let other = best_place(conditions, indexes)->Some_0;
    assert(narrows_most(conditions, indexes, other, indexes.len() as int));
    assert(index_score(conditions, indexes[other]) <= index_score(conditions, indexes[k]));
    assert(index_score(conditions, indexes[k]) <= index_score(conditions, indexes[other]));
}

/// Which indexes' ranges hold every match of a condition; `None` if only the
/// whole collection does. For a comparison the first index that has a range
/// for it, for an `Any` those of every branch.
pub open spec fn planned(c: ConditionModel, indexes: Seq<IndexModel>) -> Option<Seq<int>>
    decreases c, 0nat, 0nat,
{
    match c {
        ConditionModel::Compare { field, op, value } => if exists|k: int|
            0 <= k < indexes.len() && has_range(#[trigger] indexes[k], field, op, value) {
            Some(seq![first_with_range(indexes, field, op, value)])
        } else {
            None
        },
        ConditionModel::All(list) => planned_all(list, indexes),
        ConditionModel::Any(list) => planned_any(list, indexes, list.len()),
        ConditionModel::Not(_) => None,
    }
}

/// The first index that has a range for a comparison.
pub open spec fn first_with_range(
    indexes: Seq<IndexModel>,
    field: Seq<char>,
    op: Op,
    value: DocModel,
) -> int {
    choose|k: int| #[trigger] is_first_with_range(indexes, field, op, value, k)
}

pub open spec fn is_first_with_range(
    indexes: Seq<IndexModel>,
    field: Seq<char>,
    op: Op,
    value: DocModel,
    k: int,
) -> bool {
    &&& 0 <= k < indexes.len()
    &&& has_range(indexes[k], field, op, value)
    &&& forall|j: int| 0 <= j < k ==> !has_range(#[trigger] indexes[j], field, op, value)
}

/// Which indexes' ranges hold every match of one of the first `n` conditions:
/// those of every one.
pub open spec fn planned_any(
    list: Seq<ConditionModel>,
    indexes: Seq<IndexModel>,
    n: nat,
) -> Option<Seq<int>>
    decreases list, 0nat, n,
{
    if n == 0 {
        Some(seq![])
    } else if n > list.len() {
        None
    } else {
        match (planned_any(list, indexes, (n - 1) as nat), planned(list[n - 1], indexes)) {
            (Some(front), Some(more)) => Some(front + more),
            _ => None,
        }
    }
}

/// Which indexes' ranges hold every match of all of the first `n` conditions,
/// by the first of them that any do it for.
pub open spec fn planned_first(
    conditions: Seq<ConditionModel>,
    indexes: Seq<IndexModel>,
    n: nat,
) -> Option<Seq<int>>
    decreases conditions, 0nat, n,
{
    if n == 0 || n > conditions.len() {
        None
    } else {
        match planned_first(conditions, indexes, (n - 1) as nat) {
            Some(found) => Some(found),
            None => planned(conditions[n - 1], indexes),
        }
    }
}

/// Which indexes' ranges hold every match of all conditions: the one that the
/// comparisons narrow most, otherwise those of the first condition that can be
/// planned for.
pub open spec fn planned_all(
    conditions: Seq<ConditionModel>,
    indexes: Seq<IndexModel>,
) -> Option<Seq<int>>
    decreases conditions, 1nat, 0nat,
{
    match best_place(conditions, indexes) {
        Some(k) => Some(seq![k]),
        None => planned_first(conditions, indexes, conditions.len()),
    }
}

proof fn lemma_planned_first(
    conditions: Seq<ConditionModel>,
    indexes: Seq<IndexModel>,
    n: nat,
    m: nat,
)
    requires
        n <= m <= conditions.len(),
        planned_first(conditions, indexes, n) is Some,
    ensures
        planned_first(conditions, indexes, m) == planned_first(conditions, indexes, n),
    decreases m - n,
{
    if n < m {
        lemma_planned_first(conditions, indexes, n, (m - 1) as nat);
    }
}

proof fn lemma_planned_any(list: Seq<ConditionModel>, indexes: Seq<IndexModel>, n: nat, m: nat)
    requires
        n <= m <= list.len(),
        planned_any(list, indexes, n) is None,
    ensures
        planned_any(list, indexes, m) is None,
    decreases m - n,
{
    if n < m {
        lemma_planned_any(list, indexes, n, (m - 1) as nat);
    }
}

/// Which indexes ranges are of.
pub open spec fn places(ranges: Ranges) -> Seq<int> {
    Seq::new(ranges.len(), |i: int| ranges[i].0)
}

/// Ranges that hold every match of all conditions, if indexes can give them:
/// one index's for the comparisons among the conditions, otherwise those of
/// one condition of another kind.
pub fn plan_all(conditions: &Vec<Condition>, indexes: &[IndexMeta]) -> (r: Option<
    Vec<(usize, KeyRange)>,
>)
    ensures
        r matches Some(ranges) ==> plans_cover(
            condition_models(conditions@),
            index_models(indexes@),
            range_models(ranges@),
        ),
        plannable_all(condition_models(conditions@), index_models(indexes@)) ==> r is Some,
        planned_all(condition_models(conditions@), index_models(indexes@)) == (match r {
            Some(ranges) => Some(places(range_models(ranges@))),
            None => None,
        }),
    decreases condition_models(conditions@), 1nat,
{
    let ghost models = condition_models(conditions@);
    match best_index(conditions, indexes) {
        Some((k, range)) => {
            let ghost model = range@;
            let mut one: Vec<(usize, KeyRange)> = Vec::new();
            one.push((k, range));
            proof {
                assert(range_models(one@) =~= seq![(k as int, model)]);
                lemma_best_place(models, index_models(indexes@), k as int);
                assert(places(range_models(one@)) =~= seq![k as int]);
                lemma_one_range(
                    models,
                    index_models(indexes@),
                    k as int,
                    model,
                    range_models(one@),
                );
            }
            return Some(one);
        },
        None => {},
    }
    let n: usize = conditions.len();
    for i in 0..n
        invariant
            n == conditions@.len(),
            models == condition_models(conditions@),
            best_place(models, index_models(indexes@)) is None,
            planned_first(models, index_models(indexes@), i as nat) is None,
            forall|j: int|
                0 <= j < i ==> !plannable(#[trigger] models[j], index_models(indexes@)),
    {
        assert(models[i as int] == conditions@[i as int]@);
        assert(decreases_to!(models => models[i as int]));
        match plan(&conditions[i], indexes) {
            Some(ranges) => {
                proof {
                    let found = range_models(ranges@);
                    lemma_planned_first(
                        models,
                        index_models(indexes@),
                        (i + 1) as nat,
                        n as nat,
                    );
                    assert forall|m: DocModel, id: Seq<u8>|
                        #![trigger meets_all(models, m), ranges_hit(m, index_models(indexes@), id, found)]
                        meets_all(models, m) && id.len() == 16 implies ranges_hit(
                        m,
                        index_models(indexes@),
                        id,
                        found,
                    ) by {
                        assert(meets(models[i as int], m));
                    }
                }
                return Some(ranges);
            },
            None => {},
        }
    }
    None
}

/// Ranges that hold every match of one condition, if indexes can give them:
/// for an `Any`, those of every branch.
pub fn plan(condition: &Condition, indexes: &[IndexMeta]) -> (r: Option<Vec<(usize, KeyRange)>>)
    ensures
        r matches Some(ranges) ==> plan_covers(
            condition@,
            index_models(indexes@),
            range_models(ranges@),
        ),
        plannable(condition@, index_models(indexes@)) ==> r is Some,
        planned(condition@, index_models(indexes@)) == (match r {
            Some(ranges) => Some(places(range_models(ranges@))),
            None => None,
        }),
    decreases condition@, 0nat,
{
    let ghost models = index_models(indexes@);
    match condition {
        Condition::Compare { field, op, value } => {
            let n: usize = indexes.len();
            for k in 0..n
                invariant
                    n == indexes@.len(),
                    models == index_models(indexes@),
                    condition@ == (ConditionModel::Compare {
                        field: field@,
                        op: *op,
                        value: value@,
                    }),
                    forall|j: int|
                        0 <= j < k ==> !has_range(#[trigger] models[j], field@, *op, value@),
            {
                assert(models[k as int] == indexes@[k as int]@);
                match compare_range(field.as_str(), *op, value, &indexes[k]) {
                    Some(range) => {
                        let ghost model = range@;
                        let mut one: Vec<(usize, KeyRange)> = Vec::new();
                        one.push((k, range));
                        proof {
                            assert(models[k as int] == indexes@[k as int]@);
                            let ranges = range_models(one@);
                            assert(ranges =~= seq![(k as int, model)]);
                            assert(is_first_with_range(models, field@, *op, value@, k as int));
                            let first = first_with_range(models, field@, *op, value@);
                            assert(is_first_with_range(models, field@, *op, value@, first));
                            assert(first == k);
                            assert(places(ranges) =~= seq![k as int]);
                            assert forall|m: DocModel, id: Seq<u8>|
                                #![trigger meets(condition@, m), ranges_hit(m, models, id, ranges)]
                                meets(condition@, m) && id.len() == 16 implies ranges_hit(
                                m,
                                models,
                                id,
                                ranges,
                            ) by {
                                assert(values_meet(*op, values_of(m, field@), value@));
                                assert(range_hits(m, models[k as int], id, model));
                                assert(ranges[0] == (k as int, model));
                            }
                        }
                        return Some(one);
                    },
                    None => {},
                }
            }
            None
        },
        Condition::All(list) => {
            proof {
                lemma_list_view(*list);
                assert(decreases_to!(condition@ => condition@->All_0));
            }
            match plan_all(list, indexes) {
                Some(ranges) => {
                    proof {
                        let found = range_models(ranges@);
                        assert forall|m: DocModel, id: Seq<u8>|
                            #![trigger meets(condition@, m), ranges_hit(m, models, id, found)]
                            meets(condition@, m) && id.len() == 16 implies ranges_hit(
                            m,
                            models,
                            id,
                            found,
                        ) by {
                            assert(meets_all(condition_models(list@), m));
                        }
                    }
                    Some(ranges)
                },
                None => None,
            }
        },
        Condition::Any(list) => {
            proof {
                lemma_list_view(*list);
            }
            let ghost branches = condition_models(list@);
            let mut all: Vec<(usize, KeyRange)> = Vec::new();
            let n: usize = list.len();
            assert(places(range_models(all@)) =~= seq![]);
            for i in 0..n
                invariant
                    n == list@.len(),
                    models == index_models(indexes@),
                    branches == condition_models(list@),
                    condition@ == ConditionModel::Any(branches),
                    ranges_within(models, range_models(all@)),
                    planned_any(branches, models, i as nat) == Some(places(range_models(all@))),
                    forall|j: int, m: DocModel, id: Seq<u8>|
                        #![trigger meets(branches[j], m), ranges_hit(m, models, id, range_models(all@))]
                        0 <= j < i && meets(branches[j], m) && id.len() == 16 ==> ranges_hit(
                            m,
                            models,
                            id,
                            range_models(all@),
                        ),
            {
                assert(branches[i as int] == list@[i as int]@);
                assert(decreases_to!(condition@ => condition@->Any_0[i as int]));
                let mut more = match plan(&list[i], indexes) {
                    Some(more) => more,
                    None => {
                        proof {
                            lemma_planned_any(branches, models, (i + 1) as nat, n as nat);
                        }
                        return None;
                    },
                };
                let ghost before = range_models(all@);
                let ghost added = range_models(more@);
                all.append(&mut more);
                proof {
                    let after = range_models(all@);
                    assert(after =~= before + added);
                    assert(places(after) =~= places(before) + places(added));
                    assert forall|j: int, m: DocModel, id: Seq<u8>|
                        #![trigger meets(branches[j], m), ranges_hit(m, models, id, after)]
                        0 <= j < i + 1 && meets(branches[j], m) && id.len() == 16 implies ranges_hit(
                        m,
                        models,
                        id,
                        after,
                    ) by {
                        if j < i {
                            assert(ranges_hit(m, models, id, before));
                            let r = choose|r: int|
                                0 <= r < before.len() && range_hits(
                                    m,
                                    models[(#[trigger] before[r]).0],
                                    id,
                                    before[r].1,
                                );
                            assert(after[r] == before[r]);
                        } else {
                            assert(ranges_hit(m, models, id, added));
                            let r = choose|r: int|
                                0 <= r < added.len() && range_hits(
                                    m,
                                    models[(#[trigger] added[r]).0],
                                    id,
                                    added[r].1,
                                );
                            assert(after[before.len() + r] == added[r]);
                        }
                    }
                    assert forall|r: int| 0 <= r < after.len() implies 0 <= (
                    #[trigger] after[r]).0 < models.len() by {
                        if r < before.len() {
                            assert(after[r] == before[r]);
                        } else {
                            assert(after[r] == added[r - before.len()]);
                        }
                    }
                }
            }
            proof {
                let found = range_models(all@);
                assert forall|m: DocModel, id: Seq<u8>|
                    #![trigger meets(condition@, m), ranges_hit(m, models, id, found)]
                    meets(condition@, m) && id.len() == 16 implies ranges_hit(
                    m,
                    models,
                    id,
                    found,
                ) by {
                    let j = choose|j: int|
                        0 <= j < branches.len() && meets(#[trigger] branches[j], m);
                }
            }
            Some(all)
        },
        Condition::Not(_) => None,
    }
}

impl Filter {
    /// The ranges of secondary indexes that hold every match, each index by
    /// its place; `None` if only the whole collection does.
    pub fn index_ranges(&self, indexes: &[IndexMeta]) -> (r: Option<Vec<(usize, KeyRange)>>)
        ensures
            r matches Some(ranges) ==> plans_cover(
                self@.conditions,
                index_models(indexes@),
                range_models(ranges@),
            ),
            plannable_all(self@.conditions, index_models(indexes@)) ==> r is Some,
            planned_all(self@.conditions, index_models(indexes@)) == (match r {
                Some(ranges) => Some(places(range_models(ranges@))),
                None => None,
            }),
    {
        plan_all(&self.conditions, indexes)
    }
}

} // verus!

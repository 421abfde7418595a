//! How a filter would run.

use crate::catalog::entry::{index_name, IndexModel};
use crate::catalog::{index_models, indexes_of, Catalog, IndexMeta};
use crate::filter::{Filter, FilterModel};
use crate::ordering::order_place;
use crate::planner::{places, planned_all, plans_cover, range_models};
use vstd::prelude::*;

verus! {

/// How a filter would run.
#[derive(Debug, PartialEq, Eq)]
pub enum QueryPlan {
    /// Every document is read.
    Scan,
    /// One range of one secondary index.
    Index { field: String },
    /// Ranges of several, each match once.
    IndexUnion { fields: Vec<String> },
    /// One index, in the order of the sort, until the limit is reached.
    IndexOrder { field: String },
}

/// The name of the index a range is of.
fn range_name(indexes: &[IndexMeta], at: usize) -> (r: String)
    requires
        at < indexes@.len(),
    ensures
        r@ == index_name(indexes@[at as int]@.fields),
{
    indexes[at].name()
}

/// How a filter runs on a collection with these indexes: in the order of the
/// index that its sort is read from, by ranges of those that its conditions
/// are planned for, or by reading every document.
pub open spec fn is_plan(
    filter: FilterModel,
    indexes: Seq<IndexModel>,
    plan: QueryPlan,
) -> bool {
    match (order_place(filter, indexes), planned_all(filter.conditions, indexes)) {
        (Some(k), _) => plan matches QueryPlan::IndexOrder { field } && field@ == index_name(
            indexes[k].fields,
        ),
        (None, None) => plan is Scan,
        (None, Some(places)) => if places.len() == 1 {
            plan matches QueryPlan::Index { field } && field@ == index_name(
                indexes[places[0]].fields,
            )
        } else {
            plan matches QueryPlan::IndexUnion { fields } && fields@.len() == places.len()
                && forall|i: int|
                0 <= i < fields@.len() ==> (#[trigger] fields@[i])@ == index_name(
                    indexes[places[i]].fields,
                )
        },
    }
}

/// How `find` would run `filter`: a full scan, ranges of secondary indexes, or
/// one index in the order of the sort.
pub fn explain(catalog: &Catalog, collection: &str, filter: &Filter) -> (r: QueryPlan)
    ensures
        is_plan(filter@, indexes_of(catalog@, collection@), r),
{
    let indexes = catalog.indexes(collection);
    let ghost models = index_models(indexes@);
    match filter.index_order(indexes) {
        Some(order) => {
            assert(models[order.index as int] == indexes@[order.index as int]@);
            return QueryPlan::IndexOrder { field: range_name(indexes, order.index) };
        },
        None => {},
    }
    let ranges = match filter.index_ranges(indexes) {
        None => return QueryPlan::Scan,
        Some(ranges) => ranges,
    };
    let ghost wanted = range_models(ranges@);
    let n: usize = ranges.len();
    if n == 1 {
        proof {
            assert(wanted[0] == (ranges@[0].0 as int, ranges@[0].1@));
            assert(places(wanted)[0] == wanted[0].0);
            assert(0 <= wanted[0].0 < models.len());
            assert(models[ranges@[0].0 as int] == indexes@[ranges@[0].0 as int]@);
        }
        return QueryPlan::Index { field: range_name(indexes, ranges[0].0) };
    }
    let mut fields: Vec<String> = Vec::new();
    for i in 0..n
        invariant
            n == ranges@.len(),
            models == index_models(indexes@),
            wanted == range_models(ranges@),
            plans_cover(filter@.conditions, models, wanted),
            fields@.len() == i,
            forall|j: int|
                0 <= j < i ==> (#[trigger] fields@[j])@ == index_name(models[wanted[j].0].fields),
    {
        proof {
            assert(wanted[i as int] == (ranges@[i as int].0 as int, ranges@[i as int].1@));
            assert(0 <= wanted[i as int].0 < models.len());
            assert(models[ranges@[i as int].0 as int] == indexes@[ranges@[i as int].0 as int]@);
        }
        fields.push(range_name(indexes, ranges[i].0));
    }
    proof {
        assert forall|i: int| 0 <= i < fields@.len() implies (#[trigger] fields@[i])@ == index_name(
            models[places(wanted)[i]].fields,
        ) by {
            assert(places(wanted)[i] == wanted[i].0);
        }
    }
    QueryPlan::IndexUnion { fields }
}

} // verus!

//! Writing filters.

use crate::collection::maintain::copy_text;
use crate::document::{DocModel, Document};
use crate::filter::{
    condition_models, lemma_list_view, sort_models, Condition, ConditionModel, Filter, FilterModel,
    Sort, SortModel, SortOrder,
};
use crate::query::Op;
use vstd::prelude::*;

verus! {

/// A comparison.
pub open spec fn comparison(field: Seq<char>, op: Op, value: DocModel) -> ConditionModel {
    ConditionModel::Compare { field, op, value }
}

impl Condition {
    /// What `field` leads to, compared with `value`.
    pub fn on(field: &str, op: Op, value: Document) -> (r: Condition)
        ensures
            r@ == comparison(field@, op, value@),
    {
        Condition::Compare { field: copy_text(field), op, value }
    }

    /// `field` is equal to `value`.
    pub fn eq(field: &str, value: Document) -> (r: Condition)
        ensures
            r@ == comparison(field@, Op::Eq, value@),
    {
        Condition::on(field, Op::Eq, value)
    }

    /// `field` is not equal to `value`.
    pub fn ne(field: &str, value: Document) -> (r: Condition)
        ensures
            r@ == comparison(field@, Op::Ne, value@),
    {
        Condition::on(field, Op::Ne, value)
    }

    /// `field` is less than `value`.
    pub fn lt(field: &str, value: Document) -> (r: Condition)
        ensures
            r@ == comparison(field@, Op::Lt, value@),
    {
        Condition::on(field, Op::Lt, value)
    }

    /// `field` is at most `value`.
    pub fn lte(field: &str, value: Document) -> (r: Condition)
        ensures
            r@ == comparison(field@, Op::Lte, value@),
    {
        Condition::on(field, Op::Lte, value)
    }

    /// `field` is greater than `value`.
    pub fn gt(field: &str, value: Document) -> (r: Condition)
        ensures
            r@ == comparison(field@, Op::Gt, value@),
    {
        Condition::on(field, Op::Gt, value)
    }

    /// `field` is at least `value`.
    pub fn gte(field: &str, value: Document) -> (r: Condition)
        ensures
            r@ == comparison(field@, Op::Gte, value@),
    {
        Condition::on(field, Op::Gte, value)
    }

    /// `field` is a text with this text in it, or an array with this value: `value`.
    pub fn contains(field: &str, value: Document) -> (r: Condition)
        ensures
            r@ == comparison(field@, Op::Contains, value@),
    {
        Condition::on(field, Op::Contains, value)
    }
}

impl FilterModel {
    /// One more condition.
    pub open spec fn and(self, condition: ConditionModel) -> FilterModel {
        FilterModel { conditions: self.conditions.push(condition), ..self }
    }

    /// One more, less important, field to sort by.
    pub open spec fn then_by(self, sort: SortModel) -> FilterModel {
        FilterModel { sort: self.sort.push(sort), ..self }
    }
}

impl Default for Filter {
    fn default() -> (r: Filter)
        ensures
            r@.conditions.len() == 0,
            r@.sort.len() == 0,
            r@.limit is None,
    {
        Filter { conditions: Vec::new(), sort: Vec::new(), limit: None }
    }
}

impl Filter {
    /// Everything, in any order.
    pub fn new() -> (r: Filter)
        ensures
            r@ == (FilterModel { conditions: Seq::empty(), sort: Seq::empty(), limit: None }),
    {
        let r = Filter { conditions: Vec::new(), sort: Vec::new(), limit: None };
        assert(r@.conditions =~= Seq::empty());
        assert(r@.sort =~= Seq::empty());
        r
    }

    /// And `condition`.
    pub fn and(self, condition: Condition) -> (r: Filter)
        ensures
            r@ == self@.and(condition@),
    {
        let mut conditions = self.conditions;
        let ghost before = conditions@;
        let ghost added = condition@;
        conditions.push(condition);
        assert(condition_models(conditions@) =~= condition_models(before).push(added));
        Filter { conditions, sort: self.sort, limit: self.limit }
    }

    /// And `field` is equal to `value`.
    pub fn eq(self, field: &str, value: Document) -> (r: Filter)
        ensures
            r@ == self@.and(comparison(field@, Op::Eq, value@)),
    {
        self.and(Condition::on(field, Op::Eq, value))
    }

    /// And `field` is not equal to `value`.
    pub fn ne(self, field: &str, value: Document) -> (r: Filter)
        ensures
            r@ == self@.and(comparison(field@, Op::Ne, value@)),
    {
        self.and(Condition::on(field, Op::Ne, value))
    }

    /// And `field` is less than `value`.
    pub fn lt(self, field: &str, value: Document) -> (r: Filter)
        ensures
            r@ == self@.and(comparison(field@, Op::Lt, value@)),
    {
        self.and(Condition::on(field, Op::Lt, value))
    }

    /// And `field` is at most `value`.
    pub fn lte(self, field: &str, value: Document) -> (r: Filter)
        ensures
            r@ == self@.and(comparison(field@, Op::Lte, value@)),
    {
        self.and(Condition::on(field, Op::Lte, value))
    }

    /// And `field` is greater than `value`.
    pub fn gt(self, field: &str, value: Document) -> (r: Filter)
        ensures
            r@ == self@.and(comparison(field@, Op::Gt, value@)),
    {
        self.and(Condition::on(field, Op::Gt, value))
    }

    /// And `field` is at least `value`.
    pub fn gte(self, field: &str, value: Document) -> (r: Filter)
        ensures
            r@ == self@.and(comparison(field@, Op::Gte, value@)),
    {
        self.and(Condition::on(field, Op::Gte, value))
    }

    /// And `field` is a text with this text in it, or an array with this value: `value`.
    pub fn contains(self, field: &str, value: Document) -> (r: Filter)
        ensures
            r@ == self@.and(comparison(field@, Op::Contains, value@)),
    {
        self.and(Condition::on(field, Op::Contains, value))
    }

    /// And at least one of these.
    pub fn any_of(self, conditions: Vec<Condition>) -> (r: Filter)
        ensures
            r@ == self@.and(ConditionModel::Any(condition_models(conditions@))),
    {
        proof {
            lemma_list_view(conditions);
        }
        self.and(Condition::Any(conditions))
    }

    /// In the order of `field`, among what comes before equal.
    fn sorted(self, field: &str, order: SortOrder) -> (r: Filter)
        ensures
            r@ == self@.then_by(SortModel { field: field@, order }),
    {
        let mut sort = self.sort;
        let ghost before = sort@;
        sort.push(Sort { field: copy_text(field), order });
        assert(sort_models(sort@) =~= sort_models(before).push(SortModel { field: field@, order }));
        Filter { conditions: self.conditions, sort, limit: self.limit }
    }

    /// The least `field` first.
    pub fn sort_asc(self, field: &str) -> (r: Filter)
        ensures
            r@ == self@.then_by(SortModel { field: field@, order: SortOrder::Asc }),
    {
        self.sorted(field, SortOrder::Asc)
    }

    /// The greatest `field` first.
    pub fn sort_desc(self, field: &str) -> (r: Filter)
        ensures
            r@ == self@.then_by(SortModel { field: field@, order: SortOrder::Desc }),
    {
        self.sorted(field, SortOrder::Desc)
    }

    /// At most `n` documents.
    pub fn limit(self, n: usize) -> (r: Filter)
        ensures
            r@ == (FilterModel { limit: Some(n), ..self@ }),
    {
        Filter { conditions: self.conditions, sort: self.sort, limit: Some(n) }
    }
}

} // verus!

//! Filters: conditions on documents, a sort and a limit.

use crate::document::{DocId, DocModel, Document};
use crate::number::{float_is_nan, float_of_int, float_rank, int_to_float, nan, rank};
use crate::order::{bytes_less, bytes_lt, lemma_lt_asymmetric, lemma_lt_irreflexive, lemma_lt_total, lemma_lt_transitive};
use crate::path::{value_of, value_or_null, values_at, values_of};
use crate::query::{compare, ints_related, op_holds, Op, Relation};
use vstd::prelude::*;
use vstd::utf8::encode_utf8;

verus! {

/// One condition on a document.
#[derive(Debug)]
pub enum Condition {
    /// What a path leads to, compared with a value: for a path with `[*]`,
    /// one element that compares true is enough; for `Ne`, no element may be
    /// equal.
    Compare { field: String, op: Op, value: Document },
    /// All of these.
    All(Vec<Condition>),
    /// At least one of these.
    Any(Vec<Condition>),
    /// Not this one.
    Not(Box<Condition>),
}

#[derive(Debug, Clone, Copy, PartialEq, Eq, Structural)]
pub enum SortOrder {
    Asc,
    Desc,
}

/// A field to sort by.
#[derive(Debug)]
pub struct Sort {
    pub field: String,
    pub order: SortOrder,
}

/// Which documents to find: those that meet every condition, in the order of
/// the sort fields, the first the most important, at most `limit` of them.
#[derive(Debug)]
pub struct Filter {
    pub conditions: Vec<Condition>,
    pub sort: Vec<Sort>,
    pub limit: Option<usize>,
}

/// What a condition is.
#[verifier::ext_equal]
pub ghost enum ConditionModel {
    Compare { field: Seq<char>, op: Op, value: DocModel },
    All(Seq<ConditionModel>),
    Any(Seq<ConditionModel>),
    Not(Box<ConditionModel>),
}

/// What the condition `c` is.
pub open spec fn condition_model(c: Condition) -> ConditionModel
    decreases c,
{
    match c {
        Condition::Compare { field, op, value } => ConditionModel::Compare {
            field: field@,
            op,
            value: value@,
        },
        Condition::All(list) => ConditionModel::All(
            Seq::new(
                list@.len(),
                |i: int|
                    if 0 <= i < list@.len() {
                        condition_model(list@[i])
                    } else {
                        arbitrary()
                    },
            ),
        ),
        Condition::Any(list) => ConditionModel::Any(
            Seq::new(
                list@.len(),
                |i: int|
                    if 0 <= i < list@.len() {
                        condition_model(list@[i])
                    } else {
                        arbitrary()
                    },
            ),
        ),
        Condition::Not(inner) => ConditionModel::Not(Box::new(condition_model(*inner))),
    }
}

impl View for Condition {
    type V = ConditionModel;

    open spec fn view(&self) -> ConditionModel {
        condition_model(*self)
    }
}

/// The conditions behind a vector of them.
pub open spec fn condition_models(list: Seq<Condition>) -> Seq<ConditionModel> {
    Seq::new(list.len(), |i: int| list[i]@)
}

pub proof fn lemma_list_view(list: Vec<Condition>)
    ensures
        Condition::All(list)@ == ConditionModel::All(condition_models(list@)),
        Condition::Any(list)@ == ConditionModel::Any(condition_models(list@)),
{
    assert(Condition::All(list)@->All_0 =~= condition_models(list@));
    assert(Condition::Any(list)@->Any_0 =~= condition_models(list@));
}

/// A field to sort by, in a direction.
pub ghost struct SortModel {
    pub field: Seq<char>,
    pub order: SortOrder,
}

impl View for Sort {
    type V = SortModel;

    open spec fn view(&self) -> SortModel {
        SortModel { field: self.field@, order: self.order }
    }
}

/// The sort fields behind a vector of them.
pub open spec fn sort_models(sort: Seq<Sort>) -> Seq<SortModel> {
    Seq::new(sort.len(), |i: int| sort[i]@)
}

/// What a filter is.
pub ghost struct FilterModel {
    pub conditions: Seq<ConditionModel>,
    pub sort: Seq<SortModel>,
    pub limit: Option<usize>,
}

impl View for Filter {
    type V = FilterModel;

    open spec fn view(&self) -> FilterModel {
        FilterModel {
            conditions: condition_models(self.conditions@),
            sort: sort_models(self.sort@),
            limit: self.limit,
        }
    }
}

/// `text` in lower case, as `str::to_lowercase` makes it.
pub uninterp spec fn lowercase(text: Seq<char>) -> Seq<char>;

/// `str::to_lowercase`: the text with every character in its lower case, by
/// Unicode's tables. What those say of a given text is left to the name.
#[verifier::external_body]
fn to_lowercase(text: &str) -> (r: String)
    ensures
        r@ == lowercase(text@),
{
    text.to_lowercase()
}

/// Whether `needle` stands somewhere in `hay`.
pub open spec fn has_part(hay: Seq<u8>, needle: Seq<u8>) -> bool {
    exists|i: int|
        0 <= i && i + needle.len() <= hay.len() && #[trigger] hay.subrange(
            i,
            i + needle.len(),
        ) == needle
}

/// Whether a text contains another, in whatever case.
pub open spec fn contains_text(a: DocModel, b: DocModel) -> bool {
    match (a, b) {
        (DocModel::String(x), DocModel::String(y)) => has_part(
            encode_utf8(lowercase(x)),
            encode_utf8(lowercase(y)),
        ),
        _ => false,
    }
}

/// Whether one value meets a comparison.
pub open spec fn value_meets(op: Op, a: DocModel, b: DocModel) -> bool {
    if op == Op::Contains {
        contains_text(a, b)
    } else {
        op_holds(op, a, b)
    }
}

/// Whether the values a path leads to meet a comparison: all of them for
/// `Ne`, any of them otherwise.
pub open spec fn values_meet(op: Op, found: Seq<DocModel>, value: DocModel) -> bool {
    if op == Op::Ne {
        forall|i: int| 0 <= i < found.len() ==> value_meets(op, #[trigger] found[i], value)
    } else {
        exists|i: int| 0 <= i < found.len() && value_meets(op, #[trigger] found[i], value)
    }
}

/// Whether a document meets a condition.
pub open spec fn meets(c: ConditionModel, m: DocModel) -> bool
    decreases c,
{
    match c {
        ConditionModel::Compare { field, op, value } => values_meet(op, values_of(m, field), value),
        ConditionModel::All(list) => forall|i: int|
            0 <= i < list.len() ==> meets(#[trigger] list[i], m),
        ConditionModel::Any(list) => exists|i: int|
            0 <= i < list.len() && meets(#[trigger] list[i], m),
        ConditionModel::Not(inner) => !meets(*inner, m),
    }
}

/// Whether a document meets every condition.
pub open spec fn meets_all(conditions: Seq<ConditionModel>, m: DocModel) -> bool {
    forall|i: int| 0 <= i < conditions.len() ==> meets(#[trigger] conditions[i], m)
}

fn bytes_at(hay: &[u8], needle: &[u8], at: usize) -> (r: bool)
    requires
        at + needle@.len() <= hay@.len(),
    ensures
        r == (hay@.subrange(at as int, at + needle@.len()) == needle@),
{
    let n: usize = needle.len();
    let total: usize = hay.len();
    for k in 0..n
        invariant
            n == needle@.len(),
            total == hay@.len(),
            at + n <= total,
            forall|j: int| 0 <= j < k ==> hay@[at + j] == needle@[j],
    {
        if hay[at + k] != needle[k] {
            assert(hay@.subrange(at as int, at + n)[k as int] != needle@[k as int]);
            return false;
        }
    }
    assert(hay@.subrange(at as int, at + n) =~= needle@);
    true
}

fn find_part(hay: &[u8], needle: &[u8]) -> (r: bool)
    ensures
        r == has_part(hay@, needle@),
{
    if needle.len() > hay.len() {
        return false;
    }
    let last: usize = hay.len() - needle.len();
    let mut i: usize = 0;
    while i <= last
        invariant
            last + needle@.len() == hay@.len(),
            i <= last + 1,
            forall|j: int|
                0 <= j < i ==> #[trigger] hay@.subrange(j, j + needle@.len()) != needle@,
        decreases last + 1 - i,
    {
        if bytes_at(hay, needle, i) {
            return true;
        }
        if i == last {
            return false;
        }
        i += 1;
    }
    false
}

fn text_contains(a: &Document, b: &Document) -> (r: bool)
    ensures
        r == contains_text(a@, b@),
{
    match (a, b) {
        (Document::String(x), Document::String(y)) => {
            let hay = to_lowercase(x.as_str());
            let needle = to_lowercase(y.as_str());
            find_part(hay.as_str().as_bytes(), needle.as_str().as_bytes())
        },
        _ => false,
    }
}

/// Whether a value compares true.
fn value_compares(op: Op, a: &Document, b: &Document) -> (r: bool)
    ensures
        r == value_meets(op, a@, b@),
{
    match op {
        Op::Eq => matches!(compare(a, b), Some(Relation::Equal)),
        Op::Ne => !matches!(compare(a, b), Some(Relation::Equal)),
        Op::Lt => matches!(compare(a, b), Some(Relation::Less)),
        Op::Lte => matches!(compare(a, b), Some(Relation::Less) | Some(Relation::Equal)),
        Op::Gt => matches!(compare(a, b), Some(Relation::Greater)),
        Op::Gte => matches!(compare(a, b), Some(Relation::Greater) | Some(Relation::Equal)),
        Op::Contains => text_contains(a, b),
    }
}

fn values_compare(op: Op, found: &Vec<Document>, value: &Document) -> (r: bool)
    ensures
        r == values_meet(op, crate::document::models(found@), value@),
{
    let n: usize = found.len();
    let ghost all = crate::document::models(found@);
    let every: bool = match op {
        Op::Ne => true,
        _ => false,
    };
    for i in 0..n
        invariant
            n == found@.len(),
            all == crate::document::models(found@),
            every == (op == Op::Ne),
            forall|j: int| 0 <= j < i ==> value_meets(op, #[trigger] all[j], value@) == every,
    {
        assert(all[i as int] == found@[i as int]@);
        if value_compares(op, &found[i], value) != every {
            return !every;
        }
    }
    every
}

impl Condition {
    /// Whether a document meets this condition.
    pub fn holds(&self, doc: &Document) -> (r: bool)
        ensures
            r == meets(self@, doc@),
        decreases self@,
    {
        match self {
            Condition::Compare { field, op, value } => {
                let found = values_at(doc, field.as_str());
                values_compare(*op, &found, value)
            },
            Condition::All(list) => {
                proof {
                    lemma_list_view(*list);
                }
                let n: usize = list.len();
                for i in 0..n
                    invariant
                        n == list@.len(),
                        self@ == ConditionModel::All(condition_models(list@)),
                        forall|j: int|
                            0 <= j < i ==> meets(#[trigger] condition_models(list@)[j], doc@),
                {
                    assert(decreases_to!(self@ => self@->All_0[i as int]));
                    assert(condition_models(list@)[i as int] == list@[i as int]@);
                    if !list[i].holds(doc) {
                        return false;
                    }
                }
                true
            },
            Condition::Any(list) => {
                proof {
                    lemma_list_view(*list);
                }
                let n: usize = list.len();
                for i in 0..n
                    invariant
                        n == list@.len(),
                        self@ == ConditionModel::Any(condition_models(list@)),
                        forall|j: int|
                            0 <= j < i ==> !meets(#[trigger] condition_models(list@)[j], doc@),
                {
                    assert(decreases_to!(self@ => self@->Any_0[i as int]));
                    assert(condition_models(list@)[i as int] == list@[i as int]@);
                    if list[i].holds(doc) {
                        return true;
                    }
                }
                false
            },
            Condition::Not(inner) => {
                assert(decreases_to!(self@ => self@->Not_0));
                !inner.holds(doc)
            },
        }
    }
}

impl Filter {
    /// Whether a document meets every condition.
    pub fn matches(&self, doc: &Document) -> (r: bool)
        ensures
            r == meets_all(self@.conditions, doc@),
    {
        let n: usize = self.conditions.len();
        for i in 0..n
            invariant
                n == self.conditions@.len(),
                forall|j: int| 0 <= j < i ==> meets(#[trigger] self@.conditions[j], doc@),
        {
            assert(self@.conditions[i as int] == self.conditions@[i as int]@);
            if !self.conditions[i].holds(doc) {
                return false;
            }
        }
        true
    }
}

/// What orders the values that a sort can order.
pub ghost struct SortKey {
    pub kind: int,
    pub number: int,
    pub exact: int,
    pub text: Seq<u8>,
}

/// Integers that a float can't tell apart are told apart by themselves.
pub open spec fn exact_part_of(n: i64) -> int {
    if -0x20_0000_0000_0000 <= n <= 0x20_0000_0000_0000 {
        0
    } else {
        n as int
    }
}

/// What a sort orders a value by: null, then false and true, then numbers,
/// then texts. Arrays, objects, binaries, ids and NaN have no order.
pub open spec fn sort_key(m: DocModel) -> Option<SortKey> {
    match m {
        DocModel::Null => Some(SortKey { kind: 0, number: 0, exact: 0, text: seq![] }),
        DocModel::Bool(b) => Some(
            SortKey {
                kind: 1,
                number: if b {
                    1
                } else {
                    0
                },
                exact: 0,
                text: seq![],
            },
        ),
        DocModel::Int(n) => if nan(float_of_int(n)) {
            None
        } else {
            Some(
                SortKey {
                    kind: 2,
                    number: rank(float_of_int(n)),
                    exact: exact_part_of(n),
                    text: seq![],
                },
            )
        },
        DocModel::Float(f) => if nan(f) {
            None
        } else {
            Some(SortKey { kind: 2, number: rank(f), exact: 0, text: seq![] })
        },
        DocModel::String(s) => Some(
            SortKey { kind: 3, number: 0, exact: 0, text: encode_utf8(s) },
        ),
        _ => None,
    }
}

/// Whether a sort has no order for a value.
pub open spec fn unordered(m: DocModel) -> bool {
    sort_key(m) is None
}

/// How two keys compare.
pub open spec fn keys_related(p: SortKey, q: SortKey) -> Relation {
    if p.kind != q.kind {
        ints_related(p.kind, q.kind)
    } else if p.number != q.number {
        ints_related(p.number, q.number)
    } else if p.exact != q.exact {
        ints_related(p.exact, q.exact)
    } else if p.text == q.text {
        Relation::Equal
    } else if bytes_lt(p.text, q.text) {
        Relation::Less
    } else {
        Relation::Greater
    }
}

/// A comparison the other way around.
pub open spec fn flipped(r: Relation) -> Relation {
    match r {
        Relation::Less => Relation::Greater,
        Relation::Equal => Relation::Equal,
        Relation::Greater => Relation::Less,
    }
}

/// How a sort in this direction orders two values: those without an order go
/// last, in both directions.
pub open spec fn sorted_as(order: SortOrder, x: DocModel, y: DocModel) -> Relation {
    match (sort_key(x), sort_key(y)) {
        (Some(p), Some(q)) => if order == SortOrder::Asc {
            keys_related(p, q)
        } else {
            flipped(keys_related(p, q))
        },
        (Some(_), None) => Relation::Less,
        (None, Some(_)) => Relation::Greater,
        (None, None) => Relation::Equal,
    }
}

/// How a sort orders two documents: by the first field in which they differ.
pub open spec fn order_of(sort: Seq<SortModel>, a: DocModel, b: DocModel) -> Relation
    decreases sort.len(),
{
    if sort.len() == 0 {
        Relation::Equal
    } else {
        let first = sorted_as(
            sort[0].order,
            value_of(a, sort[0].field),
            value_of(b, sort[0].field),
        );
        if first == Relation::Equal {
            order_of(sort.skip(1), a, b)
        } else {
            first
        }
    }
}

/// A document that was found, with its id.
pub type Found = (Seq<u8>, DocModel);

/// Whether one document comes before another: by the sort fields, then by id.
pub open spec fn comes_before(sort: Seq<SortModel>, x: Found, y: Found) -> bool {
    let r = order_of(sort, x.1, y.1);
    r == Relation::Less || (r == Relation::Equal && bytes_lt(x.0, y.0))
}

/// Whether documents are in the order of a sort.
pub open spec fn in_order(sort: Seq<SortModel>, found: Seq<Found>) -> bool {
    forall|i: int, j: int|
        0 <= i < j < found.len() ==> comes_before(sort, #[trigger] found[i], #[trigger] found[j])
}

/// Whether no document is there twice.
pub open spec fn ids_distinct(found: Seq<Found>) -> bool {
    forall|i: int, j: int|
        0 <= i < j < found.len() ==> (#[trigger] found[i]).0 != (#[trigger] found[j]).0
}

/// The documents behind a vector of them.
pub open spec fn found_models(items: Seq<(DocId, Document)>) -> Seq<Found> {
    Seq::new(items.len(), |i: int| (items[i].0@, items[i].1@))
}

pub proof fn lemma_sorted_as(order: SortOrder, x: DocModel, y: DocModel, z: DocModel)
    ensures
        sorted_as(order, y, x) == flipped(sorted_as(order, x, y)),
        sorted_as(order, x, y) == Relation::Equal ==> sorted_as(order, x, z) == sorted_as(
            order,
            y,
            z,
        ),
        sorted_as(order, x, y) == Relation::Less && sorted_as(order, y, z) == Relation::Less
            ==> sorted_as(order, x, z) == Relation::Less,
        sorted_as(order, x, y) == Relation::Less && sorted_as(order, y, z) == Relation::Equal
            ==> sorted_as(order, x, z) == Relation::Less,
{
    match (sort_key(x), sort_key(y)) {
        (Some(p), Some(q)) => {
            lemma_lt_total(p.text, q.text);
            lemma_lt_irreflexive(p.text);
            if bytes_lt(p.text, q.text) {
                lemma_lt_asymmetric(p.text, q.text);
            }
            match sort_key(z) {
                Some(s) => {
                    lemma_lt_total(q.text, s.text);
                    lemma_lt_total(p.text, s.text);
                    if bytes_lt(q.text, s.text) {
                        lemma_lt_asymmetric(q.text, s.text);
                    }
                    if bytes_lt(p.text, s.text) {
                        lemma_lt_asymmetric(p.text, s.text);
                    }
                    if bytes_lt(p.text, q.text) && bytes_lt(q.text, s.text) {
                        lemma_lt_transitive(p.text, q.text, s.text);
                    }
                    if bytes_lt(s.text, q.text) && bytes_lt(q.text, p.text) {
                        lemma_lt_transitive(s.text, q.text, p.text);
                    }
                },
                None => {},
            }
        },
        _ => {},
    }
}

proof fn lemma_order_of(sort: Seq<SortModel>, a: DocModel, b: DocModel, c: DocModel)
    ensures
        order_of(sort, b, a) == flipped(order_of(sort, a, b)),
        order_of(sort, a, b) == Relation::Equal ==> order_of(sort, a, c) == order_of(sort, b, c),
        order_of(sort, a, b) == Relation::Less && order_of(sort, b, c) == Relation::Less
            ==> order_of(sort, a, c) == Relation::Less,
        order_of(sort, a, b) == Relation::Less && order_of(sort, b, c) == Relation::Equal
            ==> order_of(sort, a, c) == Relation::Less,
    decreases sort.len(),
{
    if sort.len() > 0 {
        let field = sort[0].field;
        lemma_sorted_as(
            sort[0].order,
            value_of(a, field),
            value_of(b, field),
            value_of(c, field),
        );
        lemma_order_of(sort.skip(1), a, b, c);
    }
}

/// The order of a sort is a strict order on documents with different ids.
pub proof fn sort_order_is_strict(sort: Seq<SortModel>, x: Found, y: Found, z: Found)
    ensures
        !(comes_before(sort, x, y) && comes_before(sort, y, x)),
        x.0 != y.0 ==> comes_before(sort, x, y) || comes_before(sort, y, x),
        comes_before(sort, x, y) && comes_before(sort, y, z) ==> comes_before(sort, x, z),
{
    lemma_order_of(sort, x.1, y.1, z.1);
    lemma_lt_total(x.0, y.0);
    if bytes_lt(x.0, y.0) {
        lemma_lt_asymmetric(x.0, y.0);
        if bytes_lt(y.0, z.0) {
            lemma_lt_transitive(x.0, y.0, z.0);
        }
    }
}

/// What a sort orders a value by, to compute with.
enum Rank<'a> {
    Null,
    Bool(bool),
    Number(i128, i64),
    Text(&'a str),
    Unordered,
}

spec fn rank_is(r: Rank, m: DocModel) -> bool {
    match r {
        Rank::Null => m is Null,
        Rank::Bool(b) => m == DocModel::Bool(b),
        Rank::Number(number, exact) => sort_key(m) == Some(
            SortKey { kind: 2, number: number as int, exact: exact as int, text: seq![] },
        ),
        Rank::Text(s) => m == DocModel::String(s@),
        Rank::Unordered => sort_key(m) is None,
    }
}

fn rank_of(value: &Document) -> (r: Rank<'_>)
    ensures
        rank_is(r, value@),
{
    match value {
        Document::Null => Rank::Null,
        Document::Bool(b) => Rank::Bool(*b),
        Document::Int(n) => {
            let f: u64 = int_to_float(*n);
            if float_is_nan(f) {
                return Rank::Unordered;
            }
            let exact: i64 = if -0x20_0000_0000_0000 <= *n && *n <= 0x20_0000_0000_0000 {
                0
            } else {
                *n
            };
            Rank::Number(float_rank(f), exact)
        },
        Document::Float(f) => if float_is_nan(*f) {
            Rank::Unordered
        } else {
            Rank::Number(float_rank(*f), 0)
        },
        Document::String(s) => Rank::Text(s.as_str()),
        _ => Rank::Unordered,
    }
}

/// Whether a sort has no order for a value.
pub fn is_unordered(value: &Document) -> (r: bool)
    ensures
        r == unordered(value@),
{
    matches!(rank_of(value), Rank::Unordered)
}

fn kind_of(r: &Rank<'_>) -> (kind: u8)
    ensures
        forall|m: DocModel| rank_is(*r, m) && sort_key(m) is Some ==> kind == sort_key(m)->Some_0.kind,
        kind == 4 <==> *r is Unordered,
{
    match r {
        Rank::Null => 0,
        Rank::Bool(_) => 1,
        Rank::Number(_, _) => 2,
        Rank::Text(_) => 3,
        Rank::Unordered => 4,
    }
}

fn flip(r: Relation) -> (f: Relation)
    ensures
        f == flipped(r),
{
    match r {
        Relation::Less => Relation::Greater,
        Relation::Equal => Relation::Equal,
        Relation::Greater => Relation::Less,
    }
}

fn compare_ints(a: i128, b: i128) -> (r: Relation)
    ensures
        r == ints_related(a as int, b as int),
{
    if a < b {
        Relation::Less
    } else if a == b {
        Relation::Equal
    } else {
        Relation::Greater
    }
}

fn sort_values(order: SortOrder, x: &Document, y: &Document) -> (r: Relation)
    ensures
        r == sorted_as(order, x@, y@),
{
    let a = rank_of(x);
    let b = rank_of(y);
    let up: Relation = match (&a, &b) {
        (Rank::Unordered, Rank::Unordered) => return Relation::Equal,
        (Rank::Unordered, _) => return Relation::Greater,
        (_, Rank::Unordered) => return Relation::Less,
        (Rank::Null, Rank::Null) => Relation::Equal,
        (Rank::Bool(p), Rank::Bool(q)) => if *p == *q {
            Relation::Equal
        } else if *q {
            Relation::Less
        } else {
            Relation::Greater
        },
        (Rank::Number(n, e), Rank::Number(m, f)) => if *n != *m {
            compare_ints(*n, *m)
        } else {
            compare_ints(*e as i128, *f as i128)
        },
        (Rank::Text(s), Rank::Text(t)) => if bytes_less(s.as_bytes(), t.as_bytes()) {
            proof {
                lemma_lt_irreflexive(encode_utf8(s@));
            }
            Relation::Less
        } else if bytes_less(t.as_bytes(), s.as_bytes()) {
            proof {
                lemma_lt_irreflexive(encode_utf8(s@));
            }
            Relation::Greater
        } else {
            proof {
                lemma_lt_total(encode_utf8(s@), encode_utf8(t@));
            }
            Relation::Equal
        },
        _ => compare_ints(kind_of(&a) as i128, kind_of(&b) as i128),
    };
    match order {
        SortOrder::Asc => up,
        SortOrder::Desc => flip(up),
    }
}

/// How a sort orders two documents.
pub fn sort_documents(sort: &Vec<Sort>, a: &Document, b: &Document) -> (r: Relation)
    ensures
        r == order_of(sort_models(sort@), a@, b@),
{
    let n: usize = sort.len();
    let ghost models = sort_models(sort@);
    assert(models.skip(0) =~= models);
    for i in 0..n
        invariant
            n == sort@.len(),
            models == sort_models(sort@),
            order_of(models, a@, b@) == order_of(models.skip(i as int), a@, b@),
    {
        let x = value_or_null(a, sort[i].field.as_str());
        let y = value_or_null(b, sort[i].field.as_str());
        let r = sort_values(sort[i].order, &x, &y);
        proof {
            assert(models.skip(i as int)[0] == models[i as int]);
            assert(models[i as int] == sort@[i as int]@);
            assert(models.skip(i as int).skip(1) =~= models.skip(i + 1));
        }
        match r {
            Relation::Equal => {},
            _ => return r,
        }
    }
    assert(models.skip(n as int).len() == 0);
    Relation::Equal
}

fn goes_before(sort: &Vec<Sort>, x: &(DocId, Document), y: &(DocId, Document)) -> (r: bool)
    ensures
        r == comes_before(sort_models(sort@), (x.0@, x.1@), (y.0@, y.1@)),
{
    match sort_documents(sort, &x.1, &y.1) {
        Relation::Less => true,
        Relation::Equal => bytes_less(x.0.0.as_slice(), y.0.0.as_slice()),
        Relation::Greater => false,
    }
}

/// Puts a document where it belongs.
pub fn insert_in_order(sort: &Vec<Sort>, found: &mut Vec<(DocId, Document)>, item: (DocId, Document))
    ensures
        exists|k: int|
            0 <= k <= old(found)@.len() && found_models(final(found)@) == #[trigger] found_models(
                old(found)@,
            ).insert(k, (item.0@, item.1@)),
        in_order(sort_models(sort@), found_models(old(found)@)) && (forall|i: int|
            0 <= i < old(found)@.len() ==> (#[trigger] found_models(old(found)@)[i]).0 != item.0@)
            ==> in_order(sort_models(sort@), found_models(final(found)@)),
{
    let ghost models = sort_models(sort@);
    let ghost before = found_models(found@);
    let ghost it = (item.0@, item.1@);
    let ghost good = in_order(models, before) && (forall|i: int|
        0 <= i < before.len() ==> (#[trigger] before[i]).0 != it.0);
    let mut low: usize = 0;
    let mut high: usize = found.len();
    while low < high
        invariant
            low <= high <= found@.len(),
            before == found_models(found@),
            models == sort_models(sort@),
            it == (item.0@, item.1@),
            good == (in_order(models, before) && (forall|i: int|
                0 <= i < before.len() ==> (#[trigger] before[i]).0 != it.0)),
            good ==> forall|i: int| 0 <= i < low ==> comes_before(models, #[trigger] before[i], it),
            good ==> forall|i: int|
                high <= i < before.len() ==> comes_before(models, it, #[trigger] before[i]),
        decreases high - low,
    {
        let mid: usize = low + (high - low) / 2;
        assert(before[mid as int] == (found@[mid as int].0@, found@[mid as int].1@));
        if goes_before(sort, &item, &found[mid]) {
            proof {
                if good {
                    assert forall|i: int| mid <= i < before.len() implies comes_before(
                        models,
                        it,
                        #[trigger] before[i],
                    ) by {
                        if i > mid {
                            assert(comes_before(models, before[mid as int], before[i]));
                            sort_order_is_strict(models, it, before[mid as int], before[i]);
                        }
                    }
                }
            }
            high = mid;
        } else {
            proof {
                if good {
                    sort_order_is_strict(models, it, before[mid as int], it);
                    assert forall|i: int| 0 <= i < mid + 1 implies comes_before(
                        models,
                        #[trigger] before[i],
                        it,
                    ) by {
                        if i < mid {
                            assert(comes_before(models, before[i], before[mid as int]));
                            sort_order_is_strict(models, before[i], before[mid as int], it);
                        }
                    }
                }
            }
            low = mid + 1;
        }
    }
    found.insert(low, item);
    proof {
        let after = found_models(found@);
        assert(after =~= before.insert(low as int, it));
        if good {
            assert forall|i: int, j: int| 0 <= i < j < after.len() implies comes_before(
                models,
                #[trigger] after[i],
                #[trigger] after[j],
            ) by {
                if i < low && j > low {
                    assert(comes_before(models, before[i], before[j - 1]));
                } else if i < low && j < low {
                    assert(comes_before(models, before[i], before[j]));
                } else if i > low {
                    assert(comes_before(models, before[i - 1], before[j - 1]));
                }
            }
        }
    }
}

} // verus!

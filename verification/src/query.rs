//! How values compare in a filter.

use crate::document::{DocModel, Document};
use crate::number::{float_is_nan, float_of_int, float_rank, int_to_float, nan, rank};
use crate::order::{bytes_less, bytes_lt};
use vstd::prelude::*;
use vstd::utf8::encode_utf8;

verus! {

/// How a field is compared with a value.
#[derive(Debug, Clone, Copy, PartialEq, Eq, Structural)]
pub enum Op {
    Eq,
    Ne,
    Lt,
    Lte,
    Gt,
    Gte,
    Contains,
}

/// What a comparison of two values says.
#[derive(Debug, Clone, Copy, PartialEq, Eq, Structural)]
pub enum Relation {
    Less,
    Equal,
    Greater,
}

/// How two integers compare.
pub open spec fn ints_related(a: int, b: int) -> Relation {
    if a < b {
        Relation::Less
    } else if a == b {
        Relation::Equal
    } else {
        Relation::Greater
    }
}

/// How two floats compare: a NaN compares with nothing.
pub open spec fn floats_related(a: u64, b: u64) -> Option<Relation> {
    if nan(a) || nan(b) {
        None
    } else {
        Some(ints_related(rank(a), rank(b)))
    }
}

/// How two texts compare: by their UTF-8 bytes.
pub open spec fn texts_related(a: Seq<char>, b: Seq<char>) -> Relation {
    if a == b {
        Relation::Equal
    } else if bytes_lt(encode_utf8(a), encode_utf8(b)) {
        Relation::Less
    } else {
        Relation::Greater
    }
}

/// How two values compare, if they do: values of different types never
/// compare, except that an integer compares with a float as the float
/// nearest to it. Arrays, objects, binaries and ids compare with nothing.
pub open spec fn related(a: DocModel, b: DocModel) -> Option<Relation> {
    match (a, b) {
        (DocModel::Null, DocModel::Null) => Some(Relation::Equal),
        (DocModel::Bool(x), DocModel::Bool(y)) => Some(
            if x == y {
                Relation::Equal
            } else if y {
                Relation::Less
            } else {
                Relation::Greater
            },
        ),
        (DocModel::Int(x), DocModel::Int(y)) => Some(ints_related(x as int, y as int)),
        (DocModel::Int(x), DocModel::Float(y)) => floats_related(float_of_int(x), y),
        (DocModel::Float(x), DocModel::Int(y)) => floats_related(x, float_of_int(y)),
        (DocModel::Float(x), DocModel::Float(y)) => floats_related(x, y),
        (DocModel::String(x), DocModel::String(y)) => Some(texts_related(x, y)),
        _ => None,
    }
}

/// Whether a field holding `a` meets the comparison `op` with `b`, for the
/// operators that go by order.
pub open spec fn op_holds(op: Op, a: DocModel, b: DocModel) -> bool {
    match op {
        Op::Eq => related(a, b) == Some(Relation::Equal),
        Op::Ne => related(a, b) != Some(Relation::Equal),
        Op::Lt => related(a, b) == Some(Relation::Less),
        Op::Lte => related(a, b) == Some(Relation::Less) || related(a, b) == Some(Relation::Equal),
        Op::Gt => related(a, b) == Some(Relation::Greater),
        Op::Gte => related(a, b) == Some(Relation::Greater) || related(a, b) == Some(
            Relation::Equal,
        ),
        Op::Contains => false,
    }
}

fn compare_floats(a: u64, b: u64) -> (r: Option<Relation>)
    ensures
        r == floats_related(a, b),
{
    if float_is_nan(a) || float_is_nan(b) {
        return None;
    }
    let x: i128 = float_rank(a);
    let y: i128 = float_rank(b);
    if x < y {
        Some(Relation::Less)
    } else if x == y {
        Some(Relation::Equal)
    } else {
        Some(Relation::Greater)
    }
}

/// How two values compare, if they do.
pub fn compare(a: &Document, b: &Document) -> (r: Option<Relation>)
    ensures
        r == related(a@, b@),
{
    match (a, b) {
        (Document::Null, Document::Null) => Some(Relation::Equal),
        (Document::Bool(x), Document::Bool(y)) => if *x == *y {
            Some(Relation::Equal)
        } else if *y {
            Some(Relation::Less)
        } else {
            Some(Relation::Greater)
        },
        (Document::Int(x), Document::Int(y)) => if *x < *y {
            Some(Relation::Less)
        } else if *x == *y {
            Some(Relation::Equal)
        } else {
            Some(Relation::Greater)
        },
        (Document::Int(x), Document::Float(y)) => compare_floats(int_to_float(*x), *y),
        (Document::Float(x), Document::Int(y)) => compare_floats(*x, int_to_float(*y)),
        (Document::Float(x), Document::Float(y)) => compare_floats(*x, *y),
        (Document::String(x), Document::String(y)) => if *x == *y {
            Some(Relation::Equal)
        } else if bytes_less(x.as_str().as_bytes(), y.as_str().as_bytes()) {
            Some(Relation::Less)
        } else {
            Some(Relation::Greater)
        },
        _ => None,
    }
}

/// Whether two values are equal, as a filter compares.
pub fn equal(a: &Document, b: &Document) -> (r: bool)
    ensures
        r == (related(a@, b@) == Some(Relation::Equal)),
{
    match compare(a, b) {
        Some(Relation::Equal) => true,
        _ => false,
    }
}

} // verus!

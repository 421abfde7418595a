//! How values compare.

use super::bytes::the_first_byte_that_differs_decides;
use crate::document::DocModel;
use crate::filter::{has_part, lowercase, value_meets};
use crate::number::{float_of_int, nan};
use crate::order::{
    bytes_lt, lemma_lt_asymmetric, lemma_lt_common_front, lemma_lt_irreflexive, lemma_lt_total,
};
use crate::query::Op;
use vstd::prelude::*;
use vstd::utf8::{
    encode_scalar, encode_utf8, has_width_1_encoding, has_width_2_encoding, has_width_3_encoding,
    has_width_4_encoding, last_continuation_byte, leading_byte_width_1, leading_byte_width_2,
    leading_byte_width_3, leading_byte_width_4, second_last_continuation_byte,
    third_last_continuation_byte,
};

verus! {

/// Whether three pieces make up the whole.
pub open spec fn made_of(whole: Seq<u8>, front: Seq<u8>, part: Seq<u8>, back: Seq<u8>) -> bool {
    whole == front + part + back
}

/// A part is found wherever it stands: at the start, in the middle, at the end,
/// and where it is the whole.
pub proof fn a_part_is_found_wherever_it_stands(front: Seq<u8>, part: Seq<u8>, back: Seq<u8>)
    ensures
        has_part(front + part + back, part),
        has_part(part + back, part),
        has_part(front + part, part),
        has_part(part, part),
{
    let at = front.len() as int;
    let n = part.len() as int;
    assert((front + part + back).subrange(at, at + n) =~= part);
    assert((part + back).subrange(0, 0 + n) =~= part);
    assert((front + part).subrange(at, at + n) =~= part);
    assert(part.subrange(0, 0 + n) =~= part);
}

/// What is found is a part: something stands in front of it, and something
/// behind it.
pub proof fn what_is_found_is_a_part(whole: Seq<u8>, part: Seq<u8>)
    requires
        has_part(whole, part),
    ensures
        exists|front: Seq<u8>, back: Seq<u8>| #[trigger] made_of(whole, front, part, back),
{
    let n = part.len() as int;
    let at = choose|at: int|
        0 <= at && at + n <= whole.len() && #[trigger] whole.subrange(at, at + n) == part;
    let front = whole.take(at);
    let back = whole.skip(at + n);
    assert(whole =~= front + part + back);
    assert(made_of(whole, front, part, back));
}

/// A text contains another exactly if, both in lower case, the first is the
/// second with something in front of it and something behind it.
pub proof fn contains_finds_substrings_in_any_case(text: Seq<char>, part: Seq<char>)
    ensures
        value_meets(Op::Contains, DocModel::String(text), DocModel::String(part)) <==> exists|
            front: Seq<u8>,
            back: Seq<u8>,
        | #[trigger]
            made_of(encode_utf8(lowercase(text)), front, encode_utf8(lowercase(part)), back),
{
    let whole = encode_utf8(lowercase(text));
    let small = encode_utf8(lowercase(part));
    if has_part(whole, small) {
        what_is_found_is_a_part(whole, small);
    }
    if exists|front: Seq<u8>, back: Seq<u8>| #[trigger] made_of(whole, front, small, back) {
        let (front, back) = choose|front: Seq<u8>, back: Seq<u8>| #[trigger]
            made_of(whole, front, small, back);
        a_part_is_found_wherever_it_stands(front, small, back);
    }
}

/// Only a text contains anything, and only texts are contained.
pub proof fn only_texts_contain_texts(a: DocModel, b: DocModel)
    requires
        value_meets(Op::Contains, a, b),
    ensures
        a is String,
        b is String,
{
}

/// UTF-8 takes the characters one after the other.
pub proof fn lemma_utf8_pieces(a: Seq<char>, b: Seq<char>)
    ensures
        encode_utf8(a + b) == encode_utf8(a) + encode_utf8(b),
    decreases a.len(),
{
    if a.len() == 0 {
        assert(a + b =~= b);
        assert(encode_utf8(a) + encode_utf8(b) =~= encode_utf8(b));
    } else {
        lemma_utf8_pieces(a.drop_first(), b);
        assert((a + b).drop_first() =~= a.drop_first() + b);
        assert((a + b)[0] == a[0]);
        assert(encode_utf8(a + b) =~= encode_utf8(a) + encode_utf8(b));
    }
}

/// A text contains whatever stands between some of its characters, whatever
/// the case.
pub proof fn contains_finds_a_run_of_characters(
    text: Seq<char>,
    part: Seq<char>,
    front: Seq<char>,
    back: Seq<char>,
)
    requires
        lowercase(text) == front + lowercase(part) + back,
    ensures
        value_meets(Op::Contains, DocModel::String(text), DocModel::String(part)),
{
    lemma_utf8_pieces(front + lowercase(part), back);
    lemma_utf8_pieces(front, lowercase(part));
    a_part_is_found_wherever_it_stands(
        encode_utf8(front),
        encode_utf8(lowercase(part)),
        encode_utf8(back),
    );
}

// ---------------------------------------------------------------------
// Less, equal, greater.

/// Whether a value is a number.
pub open spec fn is_number(m: DocModel) -> bool {
    match m {
        DocModel::Int(_) => true,
        DocModel::Float(f) => !nan(f),
        _ => false,
    }
}

/// Whether two values are of a kind that has an order, and of the same one: two
/// numbers, whichever sort of number, two texts, two booleans or two nulls.
pub open spec fn alike(a: DocModel, b: DocModel) -> bool {
    ||| is_number(a) && is_number(b)
    ||| a is String && b is String
    ||| a is Bool && b is Bool
    ||| a is Null && b is Null
}

/// Exactly one of three.
pub open spec fn one_of_three(x: bool, y: bool, z: bool) -> bool {
    (x || y || z) && !(x && y) && !(x && z) && !(y && z)
}

/// Of two values of a kind, one is less, or they are equal, or one is greater,
/// and only one of these. Seen from the other side, less is greater.
pub proof fn values_of_a_kind_compare(a: DocModel, b: DocModel)
    requires
        alike(a, b),
    ensures
        one_of_three(
            value_meets(Op::Lt, a, b),
            value_meets(Op::Eq, a, b),
            value_meets(Op::Gt, a, b),
        ),
        value_meets(Op::Lt, a, b) <==> value_meets(Op::Gt, b, a),
        value_meets(Op::Eq, a, b) <==> value_meets(Op::Eq, b, a),
{
    lemma_no_nan(a);
    lemma_no_nan(b);
    match (a, b) {
        (DocModel::String(x), DocModel::String(y)) => {
            let s = encode_utf8(x);
            let t = encode_utf8(y);
            lemma_lt_total(s, t);
            lemma_lt_irreflexive(s);
            if s == t {
                crate::text::lemma_utf8_injective(x, y);
            }
            if crate::order::bytes_lt(s, t) {
                lemma_lt_asymmetric(s, t);
            }
        },
        _ => {},
    }
}

proof fn lemma_no_nan(m: DocModel)
    ensures
        m matches DocModel::Int(n) ==> !nan(float_of_int(n)),
{
    match m {
        DocModel::Int(n) => {
            crate::number::rounding_keeps_order(n, n);
        },
        _ => {},
    }
}

/// Any two numbers, integers or floats, compare, in exactly one of three ways.
pub proof fn any_two_numbers_compare(a: DocModel, b: DocModel)
    requires
        is_number(a),
        is_number(b),
    ensures
        one_of_three(
            value_meets(Op::Lt, a, b),
            value_meets(Op::Eq, a, b),
            value_meets(Op::Gt, a, b),
        ),
        value_meets(Op::Lte, a, b) <==> value_meets(Op::Lt, a, b) || value_meets(Op::Eq, a, b),
        value_meets(Op::Gte, a, b) <==> value_meets(Op::Gt, a, b) || value_meets(Op::Eq, a, b),
        value_meets(Op::Ne, a, b) <==> !value_meets(Op::Eq, a, b),
        value_meets(Op::Lt, a, b) <==> value_meets(Op::Gt, b, a),
{
    values_of_a_kind_compare(a, b);
    at_most_is_less_or_equal(a, b);
}

/// At most is less or equal, at least is greater or equal, and not equal is
/// not equal, of any two values.
pub proof fn at_most_is_less_or_equal(a: DocModel, b: DocModel)
    ensures
        value_meets(Op::Lte, a, b) <==> value_meets(Op::Lt, a, b) || value_meets(Op::Eq, a, b),
        value_meets(Op::Gte, a, b) <==> value_meets(Op::Gt, a, b) || value_meets(Op::Eq, a, b),
        value_meets(Op::Ne, a, b) <==> !value_meets(Op::Eq, a, b),
{
}

/// Values of different kinds are never less, equal or greater. A NaN, an array,
/// an object, an id or binary data compares with nothing, itself included.
pub proof fn only_values_of_a_kind_compare(a: DocModel, b: DocModel)
    requires
        !alike(a, b),
    ensures
        !value_meets(Op::Eq, a, b),
        !value_meets(Op::Lt, a, b),
        !value_meets(Op::Lte, a, b),
        !value_meets(Op::Gt, a, b),
        !value_meets(Op::Gte, a, b),
        value_meets(Op::Ne, a, b),
{
}

/// Integers compare as integers.
pub proof fn integers_compare_as_integers(x: i64, y: i64)
    ensures
        value_meets(Op::Lt, DocModel::Int(x), DocModel::Int(y)) <==> x < y,
        value_meets(Op::Eq, DocModel::Int(x), DocModel::Int(y)) <==> x == y,
        value_meets(Op::Gt, DocModel::Int(x), DocModel::Int(y)) <==> x > y,
{
}

/// False is less than true.
pub proof fn false_is_less_than_true(x: bool, y: bool)
    ensures
        value_meets(Op::Lt, DocModel::Bool(x), DocModel::Bool(y)) <==> !x && y,
        value_meets(Op::Eq, DocModel::Bool(x), DocModel::Bool(y)) <==> x == y,
        value_meets(Op::Gt, DocModel::Bool(x), DocModel::Bool(y)) <==> x && !y,
{
}

/// Null equals null.
pub proof fn null_equals_null()
    ensures
        value_meets(Op::Eq, DocModel::Null, DocModel::Null),
{
}

/// Texts are equal exactly if they are the same.
pub proof fn equal_texts_are_the_same(x: Seq<char>, y: Seq<char>)
    ensures
        value_meets(Op::Eq, DocModel::String(x), DocModel::String(y)) <==> x == y,
{
}

/// Of two texts, the one with the lower character at the first place where they
/// differ is less.
pub proof fn the_first_difference_decides(
    front: Seq<char>,
    c: char,
    d: char,
    x: Seq<char>,
    y: Seq<char>,
)
    requires
        (c as u32) < (d as u32),
    ensures
        value_meets(
            Op::Lt,
            DocModel::String(front.push(c) + x),
            DocModel::String(front.push(d) + y),
        ),
{
    let s = front.push(c) + x;
    let t = front.push(d) + y;
    let one = seq![c];
    let two = seq![d];
    assert(s =~= front + (one + x));
    assert(t =~= front + (two + y));
    lemma_utf8_pieces(front, one + x);
    lemma_utf8_pieces(front, two + y);
    lemma_utf8_pieces(one, x);
    lemma_utf8_pieces(two, y);
    lemma_one_char(c);
    lemma_one_char(d);
    let a = encode_utf8(one + x);
    let b = encode_utf8(two + y);
    lemma_scalar_lt(c, d, encode_utf8(x), encode_utf8(y));
    lemma_lt_common_front(encode_utf8(front), a, b);
    lemma_lt_irreflexive(encode_utf8(s));
}

/// The bytes of one character.
proof fn lemma_one_char(c: char)
    ensures
        encode_utf8(seq![c]) == encode_scalar(c as u32),
{
    let one = seq![c];
    assert(one.drop_first() =~= Seq::<char>::empty());
    assert(encode_utf8(one.drop_first()) =~= Seq::<u8>::empty());
    assert(encode_utf8(one) =~= encode_scalar(c as u32));
}

/// A lower character has lower bytes.
proof fn lemma_scalar_lt(c: char, d: char, x: Seq<u8>, y: Seq<u8>)
    requires
        (c as u32) < (d as u32),
    ensures
        bytes_lt(encode_scalar(c as u32) + x, encode_scalar(d as u32) + y),
{
    let s = c as u32;
    let t = d as u32;
    let a = encode_scalar(s) + x;
    let b = encode_scalar(t) + y;
    assert(s < t <= 0x10FFFF);
    lemma_first_bytes(s);
    lemma_first_bytes(t);
    let k: int = if has_width_1_encoding(t) {
        assert(((s & 0x7F) as u8) < ((t & 0x7F) as u8)) by (bit_vector)
            requires
                s < t <= 0x7F,
        ;
        0
    } else if has_width_2_encoding(s) && has_width_2_encoding(t) {
        lemma_width_2(s, t);
        if a[0] < b[0] {
            0
        } else {
            1
        }
    } else if has_width_3_encoding(s) && has_width_3_encoding(t) {
        lemma_width_3(s, t);
        if a[0] < b[0] {
            0
        } else if a[1] < b[1] {
            1
        } else {
            2
        }
    } else if has_width_4_encoding(s) && has_width_4_encoding(t) {
        lemma_width_4(s, t);
        if a[0] < b[0] {
            0
        } else if a[1] < b[1] {
            1
        } else if a[2] < b[2] {
            2
        } else {
            3
        }
    } else {
        0
    };
    the_first_byte_that_differs_decides(a, b, k);
}

/// The first byte of a character says how many it has.
proof fn lemma_first_bytes(s: u32)
    requires
        s <= 0x10FFFF,
    ensures
        s <= 0x7F ==> leading_byte_width_1(s) < 0x80,
        0xC0 <= leading_byte_width_2(s) < 0xE0,
        0xE0 <= leading_byte_width_3(s) < 0xF0,
        0xF0 <= leading_byte_width_4(s),
{
    assert(((s & 0x7F) as u8) < 0x80) by (bit_vector);
    assert(0xC0 <= (0xC0u8 | ((s >> 6) & 0x1F) as u8)) by (bit_vector);
    assert((0xC0u8 | ((s >> 6) & 0x1F) as u8) < 0xE0) by (bit_vector);
    assert(0xE0 <= (0xE0u8 | ((s >> 12) & 0x0F) as u8)) by (bit_vector);
    assert((0xE0u8 | ((s >> 12) & 0x0F) as u8) < 0xF0) by (bit_vector);
    assert(0xF0 <= (0xF0u8 | ((s >> 18) & 0x7) as u8)) by (bit_vector);
}

proof fn lemma_width_2(s: u32, t: u32)
    requires
        s < t <= 0x7FF,
    ensures
        leading_byte_width_2(s) < leading_byte_width_2(t) || (leading_byte_width_2(s)
            == leading_byte_width_2(t) && last_continuation_byte(s) < last_continuation_byte(t)),
{
    assert((0xC0u8 | ((s >> 6) & 0x1F) as u8) < (0xC0u8 | ((t >> 6) & 0x1F) as u8) || ((0xC0u8 | ((
    s >> 6) & 0x1F) as u8) == (0xC0u8 | ((t >> 6) & 0x1F) as u8) && (0x80u8 | (s & 0x3F) as u8) < (
    0x80u8 | (t & 0x3F) as u8))) by (bit_vector)
        requires
            s < t <= 0x7FF,
    ;
}

proof fn lemma_width_3(s: u32, t: u32)
    requires
        s < t <= 0xFFFF,
    ensures
        leading_byte_width_3(s) < leading_byte_width_3(t) || (leading_byte_width_3(s)
            == leading_byte_width_3(t) && (second_last_continuation_byte(s)
            < second_last_continuation_byte(t) || (second_last_continuation_byte(s)
            == second_last_continuation_byte(t) && last_continuation_byte(s)
            < last_continuation_byte(t)))),
{
    assert((0xE0u8 | ((s >> 12) & 0x0F) as u8) < (0xE0u8 | ((t >> 12) & 0x0F) as u8) || ((0xE0u8
        | ((s >> 12) & 0x0F) as u8) == (0xE0u8 | ((t >> 12) & 0x0F) as u8) && ((0x80u8 | ((s >> 6)
        & 0x3F) as u8) < (0x80u8 | ((t >> 6) & 0x3F) as u8) || ((0x80u8 | ((s >> 6)
        & 0x3F) as u8) == (0x80u8 | ((t >> 6) & 0x3F) as u8) && (0x80u8 | (s & 0x3F) as u8) < (
    0x80u8 | (t & 0x3F) as u8))))) by (bit_vector)
        requires
            s < t <= 0xFFFF,
    ;
}

proof fn lemma_width_4(s: u32, t: u32)
    requires
        s < t <= 0x10FFFF,
    ensures
        leading_byte_width_4(s) < leading_byte_width_4(t) || (leading_byte_width_4(s)
            == leading_byte_width_4(t) && (third_last_continuation_byte(s)
            < third_last_continuation_byte(t) || (third_last_continuation_byte(s)
            == third_last_continuation_byte(t) && (second_last_continuation_byte(s)
            < second_last_continuation_byte(t) || (second_last_continuation_byte(s)
            == second_last_continuation_byte(t) && last_continuation_byte(s)
            < last_continuation_byte(t)))))),
{
    assert((0xF0u8 | ((s >> 18) & 0x7) as u8) < (0xF0u8 | ((t >> 18) & 0x7) as u8) || ((0xF0u8 | ((
    s >> 18) & 0x7) as u8) == (0xF0u8 | ((t >> 18) & 0x7) as u8) && ((0x80u8 | ((s >> 12)
        & 0x3F) as u8) < (0x80u8 | ((t >> 12) & 0x3F) as u8) || ((0x80u8 | ((s >> 12)
        & 0x3F) as u8) == (0x80u8 | ((t >> 12) & 0x3F) as u8) && ((0x80u8 | ((s >> 6)
        & 0x3F) as u8) < (0x80u8 | ((t >> 6) & 0x3F) as u8) || ((0x80u8 | ((s >> 6)
        & 0x3F) as u8) == (0x80u8 | ((t >> 6) & 0x3F) as u8) && (0x80u8 | (s & 0x3F) as u8) < (
    0x80u8 | (t & 0x3F) as u8))))))) by (bit_vector)
        requires
            s < t <= 0x10FFFF,
    ;
}

/// An ASCII character is one byte, its code.
pub proof fn lemma_ascii_char(c: char)
    requires
        (c as u32) < 0x80,
    ensures
        encode_utf8(seq![c]) == seq![c as u8],
{
    let one = seq![c];
    assert(one.drop_first() =~= Seq::<char>::empty());
    assert(encode_utf8(Seq::<char>::empty()) =~= Seq::<u8>::empty());
    vstd::utf8::is_ascii_chars_encode_utf8(one);
    assert(encode_utf8(one) =~= seq![c as u8]);
}

/// A text that begins another is less.
pub proof fn a_text_that_begins_another_is_less(x: Seq<char>, y: Seq<char>)
    requires
        y.len() > 0,
    ensures
        value_meets(Op::Lt, DocModel::String(x), DocModel::String(x + y)),
{
    lemma_utf8_pieces(x, y);
    let s = encode_utf8(x);
    assert(s + Seq::<u8>::empty() =~= s);
    lemma_lt_common_front(s, Seq::<u8>::empty(), encode_utf8(y));
    assert((x + y).len() > x.len());
    lemma_utf8_nonempty(y);
}

proof fn lemma_utf8_nonempty(y: Seq<char>)
    requires
        y.len() > 0,
    ensures
        encode_utf8(y).len() > 0,
{
    if encode_utf8(y).len() == 0 {
        assert(encode_utf8(Seq::<char>::empty()) =~= Seq::<u8>::empty());
        assert(encode_utf8(y) =~= encode_utf8(Seq::<char>::empty()));
        crate::text::lemma_utf8_injective(y, Seq::<char>::empty());
    }
}

} // verus!

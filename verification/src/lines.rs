//! A line of text as JSON.

use crate::json::{json_valid, Json, JsonModel};
use vstd::prelude::*;
use vstd::string::StrSliceExecFns;

verus! {

/// A JSON value as `serde_json` has it.
#[verifier::external_type_specification]
#[verifier::external_body]
pub struct ExValue(serde_json::Value);

/// A JSON number as `serde_json` has it.
#[verifier::external_type_specification]
#[verifier::external_body]
pub struct ExNumber(serde_json::Number);

/// What `serde_json::from_str` makes of a text: the value it holds, or what it
/// says is wrong if the text isn't one JSON value. An integer is `Int` if it
/// fits an `i64`, `UInt` if only a `u64` holds it; any other number is a float.
pub uninterp spec fn json_text(text: Seq<char>) -> Result<JsonModel, Seq<char>>;

/// What `serde_json` writes of a part of a text's value: the one that the JSON
/// pointer `path` names. Nothing if the text isn't JSON, or has no such part.
pub uninterp spec fn json_part(text: Seq<char>, path: Seq<char>) -> Seq<char>;

/// Whether a character is white space: one with the Unicode property
/// `White_Space`.
pub open spec fn is_white(c: char) -> bool {
    ||| 0x9 <= c as u32 <= 0xD
    ||| c as u32 == 0x20
    ||| c as u32 == 0x85
    ||| c as u32 == 0xA0
    ||| c as u32 == 0x1680
    ||| 0x2000 <= c as u32 <= 0x200A
    ||| c as u32 == 0x2028
    ||| c as u32 == 0x2029
    ||| c as u32 == 0x202F
    ||| c as u32 == 0x205F
    ||| c as u32 == 0x3000
}

/// A text without the white space that ends it.
pub open spec fn trimmed_end(text: Seq<char>) -> Seq<char>
    decreases text.len(),
{
    if text.len() > 0 && is_white(text.last()) {
        trimmed_end(text.drop_last())
    } else {
        text
    }
}

/// A text without the white space around it.
pub open spec fn trimmed(text: Seq<char>) -> Seq<char>
    decreases text.len(),
{
    if text.len() > 0 && is_white(text[0]) {
        trimmed(text.skip(1))
    } else {
        trimmed_end(text)
    }
}

/// Whether a text is white space and nothing else.
pub open spec fn blank(text: Seq<char>) -> bool {
    forall|i: int| 0 <= i < text.len() ==> is_white(#[trigger] text[i])
}

/// What ends in anything else is not trimmed to nothing.
proof fn lemma_blank(text: Seq<char>)
    ensures
        trimmed(text).len() == 0 <==> blank(text),
    decreases text.len(),
{
    if text.len() > 0 && is_white(text[0]) {
        let rest = text.skip(1);
        lemma_blank(rest);
        if blank(rest) {
            assert forall|i: int| 0 <= i < text.len() implies is_white(#[trigger] text[i]) by {
                if i > 0 {
                    assert(rest[i - 1] == text[i]);
                }
            }
        }
    } else if text.len() > 0 {
        lemma_not_all_white(text);
        assert(!is_white(text[0]));
    }
}

proof fn lemma_not_all_white(text: Seq<char>)
    requires
        text.len() > 0,
        !is_white(text[0]),
    ensures
        trimmed_end(text).len() > 0,
    decreases text.len(),
{
    if is_white(text.last()) {
        lemma_not_all_white(text.drop_last());
    }
}

/// `serde_json::Number::as_i64`, `as_u64` and `as_f64`: a number as the first
/// kind that holds it.
#[verifier::external_body]
fn plain_number(number: serde_json::Number) -> Json {
    match (number.as_i64(), number.as_u64(), number.as_f64()) {
        (Some(n), _, _) => Json::Int(n),
        (None, Some(n), _) => Json::UInt(n),
        (None, None, float) => Json::Float(float.map(|f| f.to_bits()).unwrap_or(0)),
    }
}

/// A value of `serde_json`, variant by variant.
#[verifier::external_body]
fn plain_json(value: serde_json::Value) -> Json {
    match value {
        serde_json::Value::Null => Json::Null,
        serde_json::Value::Bool(b) => Json::Bool(b),
        serde_json::Value::Number(n) => plain_number(n),
        serde_json::Value::String(s) => Json::String(s),
        serde_json::Value::Array(items) => Json::Array(
            items.into_iter().map(plain_json).collect(),
        ),
        serde_json::Value::Object(map) => Json::Object(
            map.into_iter().map(|entry| (entry.0, plain_json(entry.1))).collect(),
        ),
    }
}

/// `serde_json::from_str`: the value that a text holds, or what is wrong with
/// the text. An object of `serde_json` has each name once: where a text has
/// one twice, the last value stands.
#[verifier::external_body]
fn from_text(text: &str) -> (r: Result<Json, String>)
    ensures
        match r {
            Ok(value) => json_text(text@) == Ok::<JsonModel, Seq<char>>(value@) && json_valid(
                value@,
            ),
            Err(why) => json_text(text@) == Err::<JsonModel, Seq<char>>(why@),
        },
{
    let value: Result<serde_json::Value, serde_json::Error> = serde_json::from_str(text);
    value.map(plain_json).map_err(|e| e.to_string())
}

/// `serde_json::Value::pointer` on what `serde_json::from_str` makes of a text,
/// written out again: the part of the value at a path.
#[verifier::external_body]
pub(crate) fn text_part(text: &str, path: &str) -> (r: String)
    ensures
        r@ == json_part(text@, path@),
{
    let value: Result<serde_json::Value, serde_json::Error> = serde_json::from_str(text);
    match value {
        Ok(value) => value.pointer(path).map(|part| part.to_string()).unwrap_or_default(),
        Err(_) => String::new(),
    }
}

/// The value that a text holds, or what is wrong with the text.
pub fn parse_json(text: &str) -> (r: Result<Json, String>)
    ensures
        match r {
            Ok(value) => json_text(text@) == Ok::<JsonModel, Seq<char>>(value@) && json_valid(
                value@,
            ),
            Err(why) => json_text(text@) == Err::<JsonModel, Seq<char>>(why@),
        },
{
    from_text(text)
}

/// `str::trim`: a text without the white space around it, as Unicode has it.
#[verifier::external_body]
fn trim(text: &str) -> (r: &str)
    ensures
        r@ == trimmed(text@),
{
    text.trim()
}

/// Whether a text is white space and nothing else.
pub fn is_blank(text: &str) -> (r: bool)
    ensures
        r == blank(text@),
{
    let rest: &str = trim(text);
    proof {
        lemma_blank(text@);
    }
    rest.unicode_len() == 0
}

} // verus!

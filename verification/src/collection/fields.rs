//! Which fields an index can be on.

use crate::bytes::bytes_equal;
use crate::catalog::entry::texts;
use crate::catalog::is_invalid_input;
use crate::error::{Error, ErrorKind, IoError};
use crate::index::key::MAX_COMPOUND_FIELDS;
use crate::path::{is_multi, parse_path, path_steps, starless, step_models};
use crate::text::{decimal_text, join, quoted, str_equal};
use vstd::prelude::*;
use vstd::utf8::encode_utf8;

verus! {

/// Whether a name is free of brackets.
pub open spec fn no_brackets(name: Seq<u8>) -> bool {
    forall|i: int| 0 <= i < name.len() ==> (#[trigger] name[i]) != 91 && name[i] != 93
}

/// Whether an index can be on a path: each step a field name, then any number
/// of `[*]`; not `_id` or below it, which is the primary key.
pub open spec fn field_usable(field: Seq<char>) -> bool {
    let steps = path_steps(field);
    &&& steps[0].name != encode_utf8("_id"@)
    &&& forall|i: int|
        0 <= i < steps.len() ==> (#[trigger] steps[i]).name.len() > 0 && no_brackets(steps[i].name)
}

/// Whether an index can be on these fields: at least one, not too many, none
/// twice, and several only on plain paths.
pub open spec fn fields_usable(fields: Seq<Seq<char>>) -> bool {
    &&& 1 <= fields.len() <= MAX_COMPOUND_FIELDS
    &&& forall|i: int|
        0 <= i < fields.len() ==> field_usable(#[trigger] fields[i]) && (fields.len() > 1
            ==> starless(path_steps(fields[i])))
    &&& forall|i: int, j: int|
        0 <= i < j < fields.len() ==> #[trigger] fields[i] != #[trigger] fields[j]
}

fn invalid(message: &str) -> (e: Error)
    ensures
        is_invalid_input(e),
{
    Error::Io(IoError::new(ErrorKind::InvalidInput, join(&[message])))
}

fn has_brackets(name: &Vec<u8>) -> (r: bool)
    ensures
        r == !no_brackets(name@),
{
    let n: usize = name.len();
    for i in 0..n
        invariant
            n == name@.len(),
            forall|j: int| 0 <= j < i ==> (#[trigger] name@[j]) != 91 && name@[j] != 93,
    {
        if name[i] == 91 || name[i] == 93 {
            return true;
        }
    }
    false
}

/// Refuses a path that no index can be on.
fn check_field(field: &str) -> (r: Result<(), Error>)
    ensures
        match r {
            Ok(()) => field_usable(field@),
            Err(e) => !field_usable(field@) && is_invalid_input(e),
        },
{
    let steps = parse_path(field);
    let ghost models = step_models(steps@);
    assert(models[0] == steps@[0]@);
    if bytes_equal(steps[0].name.as_slice(), "_id".as_bytes()) {
        return Err(invalid("`_id` is the primary key; it needs no secondary index"));
    }
    let n: usize = steps.len();
    for i in 0..n
        invariant
            n == steps@.len(),
            models == step_models(steps@),
            models == path_steps(field@),
            forall|j: int| 0 <= j < i ==> (#[trigger] models[j]).name.len() > 0,
    {
        assert(models[i as int] == steps@[i as int]@);
        if steps[i].name.len() == 0 {
            return Err(invalid("an index path needs a name between every two dots"));
        }
    }
    for i in 0..n
        invariant
            n == steps@.len(),
            models == step_models(steps@),
            models == path_steps(field@),
            forall|j: int| 0 <= j < i ==> no_brackets((#[trigger] models[j]).name),
    {
        assert(models[i as int] == steps@[i as int]@);
        if has_brackets(&steps[i].name) {
            return Err(
                invalid("in an index path, only `[*]`, right after a name, may use brackets"),
            );
        }
    }
    Ok(())
}

/// Refuses fields that no index can be on.
pub fn check_fields(fields: &[String]) -> (r: Result<(), Error>)
    ensures
        match r {
            Ok(()) => fields_usable(texts(fields@)),
            Err(e) => !fields_usable(texts(fields@)) && is_invalid_input(e),
        },
{
    let n: usize = fields.len();
    let ghost names = texts(fields@);
    if n == 0 {
        return Err(invalid("an index needs at least one field"));
    }
    if n > MAX_COMPOUND_FIELDS {
        let limit = decimal_text(MAX_COMPOUND_FIELDS as u64);
        let message = join(&["a compound index has at most ", limit.as_str(), " fields"]);
        return Err(Error::Io(IoError::new(ErrorKind::InvalidInput, message)));
    }
    for i in 0..n
        invariant
            n == fields@.len(),
            1 <= n <= MAX_COMPOUND_FIELDS,
            names == texts(fields@),
            forall|k: int|
                0 <= k < i ==> field_usable(#[trigger] names[k]) && (names.len() > 1 ==> starless(
                    path_steps(names[k]),
                )),
            forall|k: int, j: int|
                0 <= k < j < i ==> #[trigger] names[k] != #[trigger] names[j],
    {
        let field: &str = fields[i].as_str();
        assert(names[i as int] == field@);
        match check_field(field) {
            Ok(()) => {},
            Err(e) => return Err(e),
        }
        if n > 1 && is_multi(field) {
            return Err(
                invalid(
                    "a compound index can't be on array elements (`[*]`): one entry per document is what lets it sort",
                ),
            );
        }
        for j in 0..i
            invariant
                i < n == fields@.len(),
                names == texts(fields@),
                names[i as int] == field@,
                forall|k: int| 0 <= k < j ==> #[trigger] names[k] != field@,
        {
            assert(names[j as int] == fields@[j as int]@);
            if str_equal(fields[j].as_str(), field) {
                let message = join(&[quoted(field).as_str(), " is in the index twice"]);
                return Err(Error::Io(IoError::new(ErrorKind::InvalidInput, message)));
            }
        }
    }
    Ok(())
}

} // verus!

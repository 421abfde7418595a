//! Paths into documents: a field name, or several separated by dots, each
//! followed by any number of `[*]`, which stand for every element of an
//! array.

use crate::bytes::bytes_equal;
use crate::document::{lemma_array_view, models, DocModel, Document, Fields};
use vstd::prelude::*;
use vstd::slice::{slice_subrange, slice_to_vec};
use vstd::utf8::encode_utf8;

verus! {

/// One step of a path: a field name, by its UTF-8 bytes, and how many `[*]`
/// follow it.
#[verifier::ext_equal]
pub ghost struct StepModel {
    pub name: Seq<u8>,
    pub stars: nat,
}

/// The code of `.`.
pub const DOT: u8 = 46;

/// Where the first dot is; the length if there is none.
pub open spec fn dot_position(bytes: Seq<u8>) -> nat
    decreases bytes.len(),
{
    if bytes.len() == 0 || bytes[0] == DOT {
        0
    } else {
        1 + dot_position(bytes.skip(1))
    }
}

/// Whether bytes end with `[*]`.
pub open spec fn ends_with_star(bytes: Seq<u8>) -> bool {
    let n = bytes.len() as int;
    n >= 3 && bytes[n - 3] == 91 && bytes[n - 2] == 42 && bytes[n - 1] == 93
}

/// A step: the name, and the `[*]` after it.
pub open spec fn step_of(bytes: Seq<u8>) -> StepModel
    decreases bytes.len(),
{
    if ends_with_star(bytes) {
        let front = step_of(bytes.take(bytes.len() - 3));
        StepModel { name: front.name, stars: front.stars + 1 }
    } else {
        StepModel { name: bytes, stars: 0 }
    }
}

/// The steps of a path.
pub open spec fn steps_of(bytes: Seq<u8>) -> Seq<StepModel>
    decreases bytes.len(),
{
    let at = dot_position(bytes) as int;
    if at >= bytes.len() {
        seq![step_of(bytes)]
    } else {
        seq![step_of(bytes.take(at))] + steps_of(bytes.skip(at + 1))
    }
}

/// The steps of a path's text.
pub open spec fn path_steps(path: Seq<char>) -> Seq<StepModel> {
    steps_of(encode_utf8(path))
}

/// Whether a path leads to one value, not to the elements of an array.
pub open spec fn starless(steps: Seq<StepModel>) -> bool {
    forall|i: int| 0 <= i < steps.len() ==> (#[trigger] steps[i]).stars == 0
}

/// Where the field with this name is; the number of fields if it isn't.
pub open spec fn field_position(entries: Seq<(Seq<char>, DocModel)>, name: Seq<u8>) -> nat
    decreases entries.len(),
{
    if entries.len() == 0 || encode_utf8(entries[0].0) == name {
        0
    } else {
        1 + field_position(entries.skip(1), name)
    }
}

/// The value of a field, if there is one.
pub open spec fn named(m: DocModel, name: Seq<u8>) -> Option<DocModel> {
    match m {
        DocModel::Object(entries) => {
            let at = field_position(entries, name) as int;
            if at < entries.len() {
                Some(entries[at].1)
            } else {
                None
            }
        },
        _ => None,
    }
}

/// A value for no `[*]`; an array's elements for one, their elements for
/// two, and so on.
pub open spec fn elements(m: DocModel, stars: nat) -> Seq<DocModel>
    decreases stars, 0nat,
{
    if stars == 0 {
        seq![m]
    } else {
        match m {
            DocModel::Array(items) => all_elements(items, (stars - 1) as nat, items.len()),
            _ => seq![],
        }
    }
}

/// `elements` of the first `n` items.
pub open spec fn all_elements(items: Seq<DocModel>, stars: nat, n: nat) -> Seq<DocModel>
    decreases stars, n,
{
    if n == 0 || n > items.len() {
        seq![]
    } else {
        all_elements(items, stars, (n - 1) as nat) + elements(items[n - 1], stars)
    }
}

/// The values a path leads to: one for a plain path, where a missing field
/// counts as null; one per element for a path with `[*]`.
pub open spec fn values(m: DocModel, steps: Seq<StepModel>) -> Seq<DocModel>
    decreases steps.len(), 0nat,
{
    if steps.len() == 0 {
        seq![m]
    } else {
        match named(m, steps[0].name) {
            Some(value) => {
                let items = elements(value, steps[0].stars);
                all_values(items, steps.skip(1), items.len())
            },
            None => if starless(steps) {
                seq![DocModel::Null]
            } else {
                seq![]
            },
        }
    }
}

/// `values` of the first `n` items.
pub open spec fn all_values(items: Seq<DocModel>, steps: Seq<StepModel>, n: nat) -> Seq<DocModel>
    decreases steps.len(), n,
{
    if n == 0 || n > items.len() {
        seq![]
    } else {
        all_values(items, steps, (n - 1) as nat) + values(items[n - 1], steps)
    }
}

/// The values at a path's text.
pub open spec fn values_of(m: DocModel, path: Seq<char>) -> Seq<DocModel> {
    values(m, path_steps(path))
}

/// Whether a path leads to one value, not to the elements of an array.
#[verifier::opaque]
pub open spec fn is_plain(path: Seq<char>) -> bool {
    starless(path_steps(path))
}

/// The value at a plain path, null if it is missing, or if the path leads to
/// the elements of an array.
pub open spec fn value_of(m: DocModel, path: Seq<char>) -> DocModel {
    let found = values_of(m, path);
    if is_plain(path) && found.len() == 1 {
        found[0]
    } else {
        DocModel::Null
    }
}

/// A plain path leads to one value.
pub proof fn lemma_plain_path(m: DocModel, steps: Seq<StepModel>)
    requires
        starless(steps),
    ensures
        values(m, steps).len() == 1,
    decreases steps.len(),
{
    if steps.len() > 0 {
        match named(m, steps[0].name) {
            Some(value) => {
                let rest = steps.skip(1);
                assert(steps[0].stars == 0);
                assert forall|i: int| 0 <= i < rest.len() implies (#[trigger] rest[i]).stars == 0 by {
                    assert(rest[i] == steps[i + 1]);
                }
                lemma_plain_path(value, rest);
                let items = elements(value, 0);
                assert(items.len() == 1 && items[0] == value);
                assert(all_values(items, rest, 0).len() == 0);
                assert(all_values(items, rest, 1) =~= values(value, rest));
            },
            None => {},
        }
    }
}

// ---------------------------------------------------------------------

/// One step of a path.
pub struct Step {
    pub name: Vec<u8>,
    pub stars: usize,
}

impl View for Step {
    type V = StepModel;

    open spec fn view(&self) -> StepModel {
        StepModel { name: self.name@, stars: self.stars as nat }
    }
}

/// What some steps are.
pub open spec fn step_models(steps: Seq<Step>) -> Seq<StepModel> {
    Seq::new(steps.len(), |i: int| steps[i]@)
}

fn find_dot(bytes: &[u8], from: usize) -> (at: usize)
    requires
        from <= bytes@.len(),
    ensures
        from <= at <= bytes@.len(),
        at == from + dot_position(bytes@.skip(from as int)),
{
    let n: usize = bytes.len();
    let mut i: usize = from;
    while i < n && bytes[i] != DOT
        invariant
            n == bytes@.len(),
            from <= i <= n,
            from + dot_position(bytes@.skip(from as int)) == i + dot_position(bytes@.skip(i as int)),
        decreases n - i,
    {
        assert(bytes@.skip(i as int)[0] == bytes@[i as int]);
        assert(bytes@.skip(i as int).skip(1) =~= bytes@.skip(i + 1));
        i = i + 1;
    }
    if i < n {
        assert(bytes@.skip(i as int)[0] == bytes@[i as int]);
    }
    i
}

fn parse_step(bytes: &[u8]) -> (step: Step)
    ensures
        step@ == step_of(bytes@),
{
    let n: usize = bytes.len();
    let mut len: usize = n;
    let mut stars: usize = 0;
    assert(bytes@.take(n as int) =~= bytes@);
    while len >= 3 && bytes[len - 3] == 91 && bytes[len - 2] == 42 && bytes[len - 1] == 93
        invariant
            n == bytes@.len(),
            len <= n,
            stars + len <= n,
            step_of(bytes@) == (StepModel {
                name: step_of(bytes@.take(len as int)).name,
                stars: (step_of(bytes@.take(len as int)).stars + stars) as nat,
            }),
        decreases len,
    {
        let ghost now = bytes@.take(len as int);
        assert(now.take(now.len() - 3) =~= bytes@.take(len - 3));
        len = len - 3;
        stars = stars + 1;
    }
    let name = slice_to_vec(slice_subrange(bytes, 0, len));
    assert(name@ =~= bytes@.take(len as int));
    Step { name, stars }
}

/// The steps of a path.
pub fn parse_path(path: &str) -> (steps: Vec<Step>)
    ensures
        step_models(steps@) == path_steps(path@),
        steps@.len() >= 1,
{
    let bytes: &[u8] = path.as_bytes();
    let n: usize = bytes.len();
    let mut steps: Vec<Step> = Vec::new();
    let mut from: usize = 0;
    assert(bytes@.skip(0) =~= bytes@);
    assert(step_models(steps@) + steps_of(bytes@.skip(0)) =~= steps_of(bytes@));
    loop
        invariant
            bytes@ == encode_utf8(path@),
            n == bytes@.len(),
            from <= n,
            step_models(steps@) + steps_of(bytes@.skip(from as int)) == steps_of(bytes@),
        decreases n - from,
    {
        let at: usize = find_dot(bytes, from);
        let ghost left = bytes@.skip(from as int);
        let ghost before = step_models(steps@);
        let part: &[u8] = slice_subrange(bytes, from, at);
        assert(part@ =~= left.take(at - from));
        let step = parse_step(part);
        steps.push(step);
        assert(step_models(steps@) =~= before.push(step@));
        if at >= n {
            assert(left.take(at - from) =~= left);
            assert(before + seq![step@] =~= step_models(steps@));
            return steps;
        }
        proof {
            assert(left.skip(at - from + 1) =~= bytes@.skip(at + 1));
            let rest = steps_of(bytes@.skip(at + 1));
            assert(before + (seq![step@] + rest) =~= step_models(steps@) + rest);
        }
        from = at + 1;
    }
}

/// Whether a path leads to the elements of an array.
pub fn is_multi(path: &str) -> (r: bool)
    ensures
        r == !starless(path_steps(path@)),
{
    let steps = parse_path(path);
    assert(step_models(steps@).skip(0) =~= step_models(steps@));
    !all_starless(&steps, 0)
}

fn all_starless(steps: &Vec<Step>, from: usize) -> (r: bool)
    requires
        from <= steps@.len(),
    ensures
        r == starless(step_models(steps@).skip(from as int)),
{
    let n: usize = steps.len();
    let ghost all = step_models(steps@);
    let mut i: usize = from;
    while i < n
        invariant
            n == steps@.len(),
            all == step_models(steps@),
            from <= i <= n,
            forall|k: int| from <= k < i ==> (#[trigger] all[k]).stars == 0,
        decreases n - i,
    {
        assert(all[i as int].stars == steps@[i as int].stars);
        if steps[i].stars != 0 {
            assert(all.skip(from as int)[i - from] == all[i as int]);
            return false;
        }
        i = i + 1;
    }
    assert forall|k: int| 0 <= k < all.skip(from as int).len() implies (
    #[trigger] all.skip(from as int)[k]).stars == 0 by {
        assert(all[from + k].stars == 0);
    }
    true
}

/// The value of an object's field.
fn find_field<'a>(fields: &'a Fields, name: &Vec<u8>) -> (r: Option<&'a Document>)
    ensures
        match r {
            Some(value) => named(DocModel::Object(fields@), name@) == Some(value@),
            None => named(DocModel::Object(fields@), name@) is None,
        },
{
    let n: usize = fields.len();
    let ghost all = fields@;
    assert(all.skip(0) =~= all);
    for i in 0..n
        invariant
            n == fields@.len(),
            all == fields@,
            field_position(all, name@) == i + field_position(all.skip(i as int), name@),
    {
        let (key, value) = fields.entry_at(i);
        assert(all.skip(i as int)[0] == all[i as int]);
        if bytes_equal(key.as_str().as_bytes(), name.as_slice()) {
            return Some(value);
        }
        assert(all.skip(i as int).skip(1) =~= all.skip(i + 1));
    }
    assert(all.skip(n as int).len() == 0);
    None
}

/// The documents behind borrowed ones.
pub open spec fn ref_models(items: Seq<&Document>) -> Seq<DocModel> {
    Seq::new(items.len(), |i: int| items[i]@)
}

fn push_elements<'a>(doc: &'a Document, stars: usize, out: &mut Vec<&'a Document>)
    ensures
        ref_models(final(out)@) == ref_models(old(out)@) + elements(doc@, stars as nat),
    decreases stars,
{
    let ghost before = ref_models(out@);
    if stars == 0 {
        out.push(doc);
        assert(ref_models(out@) =~= before + seq![doc@]);
        return ;
    }
    match doc {
        Document::Array(items) => {
            let n: usize = items.len();
            proof {
                lemma_array_view(*items);
            }
            let ghost all = models(items@);
            assert(before + all_elements(all, (stars - 1) as nat, 0) =~= before);
            for i in 0..n
                invariant
                    n == items@.len(),
                    all == models(items@),
                    stars > 0,
                    ref_models(out@) == before + all_elements(all, (stars - 1) as nat, i as nat),
            {
                let ghost so_far = ref_models(out@);
                push_elements(&items[i], stars - 1, out);
                proof {
                    assert(all[i as int] == items@[i as int]@);
                    let head = all_elements(all, (stars - 1) as nat, i as nat);
                    let tail = elements(all[i as int], (stars - 1) as nat);
                    assert(all_elements(all, (stars - 1) as nat, (i + 1) as nat) == head + tail);
                    assert((before + head) + tail =~= before + (head + tail));
                }
            }
        },
        _ => {
            assert(ref_models(out@) =~= before + elements(doc@, stars as nat));
        },
    }
}

fn push_values(doc: &Document, steps: &Vec<Step>, at: usize, out: &mut Vec<Document>)
    requires
        at <= steps@.len(),
    ensures
        models(final(out)@) == models(old(out)@) + values(
            doc@,
            step_models(steps@).skip(at as int),
        ),
    decreases steps@.len() - at,
{
    let ghost before = models(out@);
    let ghost all = step_models(steps@);
    let ghost left = all.skip(at as int);
    if at >= steps.len() {
        out.push(doc.clone());
        assert(models(out@) =~= before + seq![doc@]);
        return ;
    }
    assert(left[0] == steps@[at as int]@);
    let found: Option<&Document> = match doc {
        Document::Object(fields) => find_field(fields, &steps[at].name),
        _ => None,
    };
    match found {
        Some(value) => {
            let mut items: Vec<&Document> = Vec::new();
            push_elements(value, steps[at].stars, &mut items);
            let ghost seen = elements(value@, left[0].stars);
            let ghost none: Seq<DocModel> = seq![];
            assert(none + seen =~= seen);
            assert(ref_models(items@) =~= seen);
            let n: usize = items.len();
            let next: usize = at + 1;
            assert(left.skip(1) =~= all.skip(at + 1));
            assert(before + all_values(seen, left.skip(1), 0) =~= before);
            for i in 0..n
                invariant
                    n == items@.len() == seen.len(),
                    ref_models(items@) == seen,
                    at < steps@.len(),
                    next == at + 1,
                    all == step_models(steps@),
                    left.skip(1) == all.skip(at + 1),
                    models(out@) == before + all_values(seen, left.skip(1), i as nat),
            {
                push_values(items[i], steps, next, out);
                proof {
                    assert(seen[i as int] == items@[i as int]@);
                    let head = all_values(seen, left.skip(1), i as nat);
                    let tail = values(seen[i as int], left.skip(1));
                    assert(all_values(seen, left.skip(1), (i + 1) as nat) == head + tail);
                    assert((before + head) + tail =~= before + (head + tail));
                }
            }
        },
        None => {
            if all_starless(steps, at) {
                out.push(Document::Null);
                assert(models(out@) =~= before + seq![DocModel::Null]);
            } else {
                assert(models(out@) =~= before + values(doc@, left));
            }
        },
    }
}

/// The values at a path.
pub fn values_at(doc: &Document, path: &str) -> (r: Vec<Document>)
    ensures
        models(r@) == values_of(doc@, path@),
{
    let steps = parse_path(path);
    let mut out: Vec<Document> = Vec::new();
    push_values(doc, &steps, 0, &mut out);
    proof {
        assert(step_models(steps@).skip(0) =~= step_models(steps@));
        let none: Seq<DocModel> = seq![];
        assert(none + values_of(doc@, path@) =~= values_of(doc@, path@));
    }
    out
}

/// The value at a plain path, null if it is missing, or if the path leads to
/// the elements of an array.
pub fn value_or_null(doc: &Document, path: &str) -> (r: Document)
    ensures
        r@ == value_of(doc@, path@),
{
    reveal(is_plain);
    if is_multi(path) {
        return Document::Null;
    }
    let mut found = values_at(doc, path);
    if found.len() == 1 {
        assert(models(found@)[0] == found@[0]@);
        found.remove(0)
    } else {
        Document::Null
    }
}

} // verus!

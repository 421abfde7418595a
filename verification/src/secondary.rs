//! Secondary indexes: which keys a document has in one, and what a unique
//! one compares.

use crate::bytes::bytes_equal;
use crate::catalog::entry::IndexModel;
use crate::catalog::IndexMeta;
use crate::document::{models, DocId, DocModel, Document};
use crate::index::key::{
    borrowed, encode_value, encode_values, joined_parts, key_id, key_order_is_filter_order,
    key_takes_apart, keys_fit, secondary, value_key, values_key, MAX_COMPOUND_FIELDS, MAX_KEY_LEN,
};
use crate::index::key;
use crate::index::range::lemma_related_flips;
use crate::order::{bytes_less, bytes_lt, lemma_lt_asymmetric, lemma_lt_total, lemma_lt_transitive};
use crate::path::{value_of, value_or_null, values_at, values_of};
use crate::query::{equal, related, Relation};
use vstd::prelude::*;

verus! {

/// Whether a sparse index keeps a value: it leaves out nulls.
pub open spec fn kept(index: IndexModel, value: DocModel) -> bool {
    !(index.sparse && value == DocModel::Null)
}

/// Whether a value gives a document this key in an index on one field.
pub open spec fn value_gives(index: IndexModel, value: DocModel, id: Seq<u8>, key: Seq<u8>) -> bool {
    kept(index, value) && (value_key(value, 1) matches Some(part) && key == part + id)
}

/// The values a compound index's key encodes, one per field.
pub open spec fn field_values_of(m: DocModel, index: IndexModel) -> Seq<DocModel> {
    Seq::new(index.fields.len(), |i: int| value_of(m, index.fields[i]))
}

/// Whether a document has this key in an index. On one field: a key per
/// value at the path that has an indexed type, one value for a plain path,
/// where a missing field is indexed as null; one per element for a path
/// with `[*]`, and none for no elements. On several fields, exactly one key,
/// whatever they hold. A sparse index leaves out the null values; on several
/// fields, the key of a document null in all of them.
pub open spec fn doc_has_key(m: DocModel, index: IndexModel, id: Seq<u8>, key: Seq<u8>) -> bool {
    if index.fields.len() == 1 {
        exists|i: int|
            0 <= i < values_of(m, index.fields[0]).len() && value_gives(
                index,
                #[trigger] values_of(m, index.fields[0])[i],
                id,
                key,
            )
    } else {
        let found = field_values_of(m, index);
        (exists|i: int| 0 <= i < found.len() && kept(index, #[trigger] found[i])) && key
            == values_key(found) + id
    }
}

/// A key of a document ends with its id, and fits in a tree.
pub proof fn lemma_key_of_doc(m: DocModel, index: IndexModel, id: Seq<u8>, key: Seq<u8>)
    requires
        doc_has_key(m, index, id, key),
        id.len() == 16,
        1 <= index.fields.len() <= MAX_COMPOUND_FIELDS,
    ensures
        key_id(key) == id,
        key.len() >= 16,
        key.len() <= MAX_KEY_LEN,
{
    if index.fields.len() == 1 {
        let found = values_of(m, index.fields[0]);
        let i = choose|i: int|
            0 <= i < found.len() && value_gives(index, #[trigger] found[i], id, key);
        let part = value_key(found[i], 1)->Some_0;
        key_takes_apart(part, id);
        let one = seq![found[i]];
        keys_fit(one, id);
        key::lemma_single_value(found[i]);
    } else {
        let found = field_values_of(m, index);
        key_takes_apart(values_key(found), id);
        keys_fit(found, id);
    }
}

/// Keys in ascending order, each once.
pub open spec fn keys_ascend(keys: Seq<Seq<u8>>) -> bool {
    forall|i: int, j: int|
        0 <= i < j < keys.len() ==> bytes_lt(#[trigger] keys[i], #[trigger] keys[j])
}

/// The keys behind vectors.
pub open spec fn key_models(keys: Seq<Vec<u8>>) -> Seq<Seq<u8>> {
    Seq::new(keys.len(), |i: int| keys[i]@)
}

/// Puts a key where it belongs in ascending order, unless it's there.
fn insert_key(keys: &mut Vec<Vec<u8>>, key: Vec<u8>)
    requires
        keys_ascend(key_models(old(keys)@)),
    ensures
        keys_ascend(key_models(final(keys)@)),
        forall|k: Seq<u8>| #[trigger]
            key_models(final(keys)@).contains(k) <==> key_models(old(keys)@).contains(k) || k
                == key@,
{
    let ghost before = key_models(keys@);
    let n: usize = keys.len();
    let mut at: usize = 0;
    while at < n && bytes_less(keys[at].as_slice(), key.as_slice())
        invariant
            n == keys@.len(),
            before == key_models(keys@),
            keys_ascend(before),
            at <= n,
            forall|i: int| 0 <= i < at ==> bytes_lt(#[trigger] before[i], key@),
        decreases n - at,
    {
        assert(before[at as int] == keys@[at as int]@);
        at = at + 1;
    }
    if at < n && bytes_equal(keys[at].as_slice(), key.as_slice()) {
        assert(before[at as int] == key@);
        return ;
    }
    proof {
        if at < n {
            assert(before[at as int] == keys@[at as int]@);
            lemma_lt_total(before[at as int], key@);
            assert(bytes_lt(key@, before[at as int]));
        }
        assert forall|i: int| at <= i < n implies bytes_lt(key@, #[trigger] before[i]) by {
            if i > at {
                assert(bytes_lt(before[at as int], before[i]));
                lemma_lt_transitive(key@, before[at as int], before[i]);
            }
        }
    }
    keys.insert(at, key);
    proof {
        let after = key_models(keys@);
        assert(after =~= before.insert(at as int, key@));
        assert forall|i: int, j: int| 0 <= i < j < after.len() implies bytes_lt(
            #[trigger] after[i],
            #[trigger] after[j],
        ) by {
            let a = if i < at {
                i
            } else {
                i - 1
            };
            let b = if j < at {
                j
            } else {
                j - 1
            };
            if i != at && j != at {
                assert(bytes_lt(before[a], before[b]));
            } else if i == at {
                assert(bytes_lt(key@, before[b]));
            } else {
                assert(bytes_lt(before[a], key@));
            }
        }
        assert forall|k: Seq<u8>| #[trigger] after.contains(k) <==> before.contains(k) || k
            == key@ by {
            if before.contains(k) {
                let i = choose|i: int| 0 <= i < before.len() && before[i] == k;
                if i < at {
                    assert(after[i] == k);
                } else {
                    assert(after[i + 1] == k);
                }
            }
            if k == key@ {
                assert(after[at as int] == k);
            }
            if after.contains(k) && k != key@ {
                let i = choose|i: int| 0 <= i < after.len() && after[i] == k;
                if i < at {
                    assert(before[i] == k);
                } else {
                    assert(before[i - 1] == k);
                }
            }
        }
    }
}

fn is_null(value: &Document) -> (r: bool)
    ensures
        r == (value@ == DocModel::Null),
{
    match value {
        Document::Null => true,
        _ => false,
    }
}

/// The values a compound index's key encodes, one per field.
fn field_values(doc: &Document, index: &IndexMeta) -> (r: Vec<Document>)
    ensures
        models(r@) == field_values_of(doc@, index@),
{
    let n: usize = index.fields.len();
    let mut found: Vec<Document> = Vec::new();
    for i in 0..n
        invariant
            n == index.fields@.len(),
            found@.len() == i,
            forall|k: int|
                0 <= k < i ==> (#[trigger] found@[k])@ == value_of(doc@, index@.fields[k]),
    {
        found.push(value_or_null(doc, index.fields[i].as_str()));
        assert(index@.fields[i as int] == index.fields@[i as int]@);
    }
    assert(models(found@) =~= field_values_of(doc@, index@));
    found
}

/// Borrows of documents.
fn borrow_all(docs: &Vec<Document>) -> (r: Vec<&Document>)
    ensures
        borrowed(r@) == models(docs@),
{
    let n: usize = docs.len();
    let mut out: Vec<&Document> = Vec::new();
    for i in 0..n
        invariant
            n == docs@.len(),
            out@.len() == i,
            forall|k: int| 0 <= k < i ==> (#[trigger] out@[k])@ == docs@[k]@,
    {
        out.push(&docs[i]);
    }
    assert(borrowed(out@) =~= models(docs@));
    out
}

/// A document's keys in `index`, in key order, each once.
pub fn index_keys(doc: &Document, index: &IndexMeta, id: DocId) -> (keys: Vec<Vec<u8>>)
    requires
        1 <= index@.fields.len() <= MAX_COMPOUND_FIELDS,
    ensures
        keys_ascend(key_models(keys@)),
        forall|k: Seq<u8>| #[trigger]
            key_models(keys@).contains(k) <==> doc_has_key(doc@, index@, id@, k),
{
    let mut keys: Vec<Vec<u8>> = Vec::new();
    let ghost none = key_models(keys@);
    if index.fields.len() == 1 {
        assert(index@.fields[0] == index.fields@[0]@);
        let found = values_at(doc, index.fields[0].as_str());
        let ghost all = values_of(doc@, index@.fields[0]);
        let n: usize = found.len();
        for i in 0..n
            invariant
                n == found@.len() == all.len(),
                models(found@) == all,
                all == values_of(doc@, index@.fields[0]),
                index@.fields.len() == 1,
                keys_ascend(key_models(keys@)),
                forall|k: Seq<u8>| #[trigger]
                    key_models(keys@).contains(k) <==> exists|j: int|
                        0 <= j < i && value_gives(index@, #[trigger] all[j], id@, k),
        {
            assert(all[i as int] == found@[i as int]@);
            let ghost before = key_models(keys@);
            let mut added: Option<Vec<u8>> = None;
            if !(index.sparse && is_null(&found[i])) {
                added = secondary(&found[i], id);
            }
            match added {
                Some(key) => {
                    let ghost new_key = key@;
                    insert_key(&mut keys, key);
                    proof {
                        assert forall|k: Seq<u8>| #[trigger]
                            key_models(keys@).contains(k) <==> exists|j: int|
                                0 <= j < i + 1 && value_gives(index@, #[trigger] all[j], id@, k) by {
                            if before.contains(k) {
                                let j = choose|j: int|
                                    0 <= j < i && value_gives(index@, #[trigger] all[j], id@, k);
                                assert(0 <= j < i + 1);
                            }
                            if k == new_key {
                                assert(kept(index@, all[i as int]));
                            }
                            if exists|j: int|
                                0 <= j < i + 1 && value_gives(index@, #[trigger] all[j], id@, k) {
                                let j = choose|j: int|
                                    0 <= j < i + 1 && value_gives(index@, #[trigger] all[j], id@, k);
                                if j < i {
                                    assert(before.contains(k));
                                }
                            }
                        }
                    }
                },
                None => {
                    proof {
                        assert forall|k: Seq<u8>| #[trigger]
                            key_models(keys@).contains(k) <==> exists|j: int|
                                0 <= j < i + 1 && value_gives(index@, #[trigger] all[j], id@, k) by {
                            if before.contains(k) {
                                let j = choose|j: int|
                                    0 <= j < i && value_gives(index@, #[trigger] all[j], id@, k);
                                assert(0 <= j < i + 1);
                            }
                            if exists|j: int|
                                0 <= j < i + 1 && value_gives(index@, #[trigger] all[j], id@, k) {
                                let j = choose|j: int|
                                    0 <= j < i + 1 && value_gives(index@, #[trigger] all[j], id@, k);
                                assert(j < i);
                                assert(before.contains(k));
                            }
                        }
                    }
                },
            }
        }
        return keys;
    }
    let found = field_values(doc, index);
    let ghost all = field_values_of(doc@, index@);
    let mut any: bool = false;
    let n: usize = found.len();
    for i in 0..n
        invariant
            n == found@.len() == all.len(),
            models(found@) == all,
            any == exists|j: int| 0 <= j < i && kept(index@, #[trigger] all[j]),
    {
        assert(all[i as int] == found@[i as int]@);
        if !(index.sparse && is_null(&found[i])) {
            assert(kept(index@, all[i as int]));
            any = true;
        }
    }
    if any {
        let refs = borrow_all(&found);
        let key = key::compound(refs.as_slice(), id);
        keys.push(key);
        proof {
            assert(key_models(keys@) =~= seq![key@]);
            assert forall|k: Seq<u8>| #[trigger] key_models(keys@).contains(k) <==> doc_has_key(
                doc@,
                index@,
                id@,
                k,
            ) by {
                assert(key_models(keys@)[0] == key@);
            }
        }
    }
    keys
}

// ---------------------------------------------------------------------
// Uniqueness.

/// Whether a unique index compares a value: not null, and of an indexed
/// type.
pub open spec fn comparable(value: DocModel) -> bool {
    value != DocModel::Null && value_key(value, 1) is Some
}

/// The tuples of values a unique `index` compares of a document: on one
/// field, a tuple of one per value, per element for `[*]`; on several
/// fields, the one tuple of their values. Left out, since they never
/// collide: null values (on several fields, a tuple with a null in it) and
/// values no comparison finds equal.
pub open spec fn has_tuple(m: DocModel, index: IndexModel, tuple: Seq<DocModel>) -> bool {
    if index.fields.len() == 1 {
        exists|i: int|
            0 <= i < values_of(m, index.fields[0]).len() && comparable(
                #[trigger] values_of(m, index.fields[0])[i],
            ) && tuple == seq![values_of(m, index.fields[0])[i]]
    } else {
        let found = field_values_of(m, index);
        tuple == found && forall|i: int| 0 <= i < found.len() ==> comparable(#[trigger] found[i])
    }
}

/// Whether two tuples collide: every value equal as a filter's `Eq` sees it.
pub open spec fn tuples_equal(a: Seq<DocModel>, b: Seq<DocModel>) -> bool {
    a.len() == b.len() && forall|i: int|
        0 <= i < a.len() ==> related(#[trigger] a[i], b[i]) == Some(Relation::Equal)
}

/// Whether a document has a tuple that collides with this one.
pub open spec fn collides(m: DocModel, index: IndexModel, tuple: Seq<DocModel>) -> bool {
    exists|other: Seq<DocModel>| has_tuple(m, index, other) && #[trigger] tuples_equal(other, tuple)
}

/// Whether two documents may not be stored together under a unique index.
pub open spec fn documents_collide(a: DocModel, b: DocModel, index: IndexModel) -> bool {
    exists|tuple: Seq<DocModel>| #[trigger] has_tuple(b, index, tuple) && collides(a, index, tuple)
}

/// The value part of the key a tuple is under.
pub open spec fn tuple_key(tuple: Seq<DocModel>) -> Seq<u8> {
    values_key(tuple)
}

/// Whether a value is compared.
fn is_comparable(value: &Document) -> (r: bool)
    ensures
        r == comparable(value@),
{
    !is_null(value) && encode_value(value).is_some()
}

/// What a unique `index` compares of a document: tuples of values, one per
/// field, each with the value part of the key it's under.
pub fn unique_tuples(doc: &Document, index: &IndexMeta) -> (r: Vec<(Vec<u8>, Vec<Document>)>)
    requires
        1 <= index@.fields.len() <= MAX_COMPOUND_FIELDS,
    ensures
        forall|i: int|
            0 <= i < r@.len() ==> (#[trigger] r@[i]).0@ == tuple_key(models(r@[i].1@)) && has_tuple(
                doc@,
                index@,
                models(r@[i].1@),
            ),
        forall|tuple: Seq<DocModel>| #[trigger]
            has_tuple(doc@, index@, tuple) ==> exists|i: int|
                0 <= i < r@.len() && models((#[trigger] r@[i]).1@) == tuple,
{
    let mut out: Vec<(Vec<u8>, Vec<Document>)> = Vec::new();
    if index.fields.len() == 1 {
        assert(index@.fields[0] == index.fields@[0]@);
        let found = values_at(doc, index.fields[0].as_str());
        let ghost all = values_of(doc@, index@.fields[0]);
        let n: usize = found.len();
        for i in 0..n
            invariant
                n == found@.len() == all.len(),
                models(found@) == all,
                all == values_of(doc@, index@.fields[0]),
                index@.fields.len() == 1,
                forall|k: int|
                    0 <= k < out@.len() ==> (#[trigger] out@[k]).0@ == tuple_key(
                        models(out@[k].1@),
                    ) && has_tuple(doc@, index@, models(out@[k].1@)),
                forall|j: int|
                    0 <= j < i && comparable(#[trigger] all[j]) ==> exists|k: int|
                        0 <= k < out@.len() && models((#[trigger] out@[k]).1@) == seq![all[j]],
        {
            let ghost before = out@;
            assert(all[i as int] == found@[i as int]@);
            if is_comparable(&found[i]) {
                let mut values: Vec<Document> = Vec::new();
                values.push(found[i].clone());
                let refs = borrow_all(&values);
                assert(models(values@) =~= seq![all[i as int]]);
                let part = encode_values(refs.as_slice());
                out.push((part, values));
                proof {
                    assert(has_tuple(doc@, index@, models(values@)));
                    assert(models(out@[before.len() as int].1@) == seq![all[i as int]]);
                }
            }
            proof {
                assert forall|j: int| 0 <= j < i + 1 && comparable(#[trigger] all[j]) implies exists|
                    k: int,
                |
                    0 <= k < out@.len() && models((#[trigger] out@[k]).1@) == seq![all[j]] by {
                    if j < i {
                        let k = choose|k: int|
                            0 <= k < before.len() && models((#[trigger] before[k]).1@) == seq![
                                all[j],
                            ];
                        assert(models(out@[k].1@) == seq![all[j]]);
                    }
                }
            }
        }
        proof {
            assert forall|tuple: Seq<DocModel>| #[trigger] has_tuple(
                doc@,
                index@,
                tuple,
            ) implies exists|i: int|
                0 <= i < out@.len() && models((#[trigger] out@[i]).1@) == tuple by {
                let j = choose|j: int|
                    0 <= j < all.len() && comparable(#[trigger] all[j]) && tuple == seq![all[j]];
                assert(comparable(all[j]));
            }
        }
        return out;
    }
    let found = field_values(doc, index);
    let ghost all = field_values_of(doc@, index@);
    let n: usize = found.len();
    for i in 0..n
        invariant
            n == found@.len() == all.len(),
            models(found@) == all,
            all == field_values_of(doc@, index@),
            index@.fields.len() != 1,
            out@.len() == 0,
            forall|j: int| 0 <= j < i ==> comparable(#[trigger] all[j]),
    {
        assert(all[i as int] == found@[i as int]@);
        if !is_comparable(&found[i]) {
            assert(!comparable(all[i as int]));
            return out;
        }
    }
    let refs = borrow_all(&found);
    let part = encode_values(refs.as_slice());
    out.push((part, found));
    assert(models(out@[0].1@) == all);
    out
}

/// Whether two tuples collide.
pub fn same_values(a: &Vec<Document>, b: &Vec<Document>) -> (r: bool)
    ensures
        r == tuples_equal(models(a@), models(b@)),
{
    if a.len() != b.len() {
        return false;
    }
    let n: usize = a.len();
    for i in 0..n
        invariant
            n == a@.len() == b@.len(),
            forall|j: int|
                0 <= j < i ==> related(#[trigger] models(a@)[j], models(b@)[j]) == Some(
                    Relation::Equal,
                ),
    {
        if !equal(&a[i], &b[i]) {
            assert(related(models(a@)[i as int], models(b@)[i as int]) != Some(Relation::Equal));
            return false;
        }
    }
    true
}

pub proof fn lemma_equal_parts(a: Seq<DocModel>, b: Seq<DocModel>, fields: int)
    requires
        tuples_equal(a, b),
        1 <= fields <= MAX_COMPOUND_FIELDS,
    ensures
        joined_parts(a, fields) == joined_parts(b, fields),
    decreases a.len(),
{
    if a.len() > 0 {
        assert(related(a[0], b[0]) == Some(Relation::Equal));
        lemma_related_flips(a[0], b[0]);
        key_order_is_filter_order(a[0], b[0], fields);
        key_order_is_filter_order(b[0], a[0], fields);
        let p = value_key(a[0], fields)->Some_0;
        let q = value_key(b[0], fields)->Some_0;
        if p != q {
            lemma_lt_asymmetric(p, q);
        }
        assert forall|i: int| 0 <= i < a.skip(1).len() implies related(
            #[trigger] a.skip(1)[i],
            b.skip(1)[i],
        ) == Some(Relation::Equal) by {
            assert(related(a[i + 1], b[i + 1]) == Some(Relation::Equal));
        }
        lemma_equal_parts(a.skip(1), b.skip(1), fields);
    }
}

/// Tuples that collide are under the same key.
pub proof fn equal_tuples_share_a_key(a: Seq<DocModel>, b: Seq<DocModel>)
    requires
        tuples_equal(a, b),
        1 <= a.len() <= MAX_COMPOUND_FIELDS,
    ensures
        tuple_key(a) == tuple_key(b),
{
    lemma_equal_parts(a, b, a.len() as int);
}

/// A tuple that a unique index compares is under a key of its document.
pub proof fn tuples_are_indexed(m: DocModel, index: IndexModel, id: Seq<u8>, tuple: Seq<DocModel>)
    requires
        has_tuple(m, index, tuple),
        1 <= index.fields.len() <= MAX_COMPOUND_FIELDS,
    ensures
        doc_has_key(m, index, id, tuple_key(tuple) + id),
        1 <= tuple.len() <= MAX_COMPOUND_FIELDS,
{
    if index.fields.len() == 1 {
        let found = values_of(m, index.fields[0]);
        let i = choose|i: int|
            0 <= i < found.len() && comparable(#[trigger] found[i]) && tuple == seq![found[i]];
        key::lemma_single_value(found[i]);
        assert(value_gives(index, found[i], id, tuple_key(tuple) + id));
    } else {
        let found = field_values_of(m, index);
        assert(comparable(found[0]));
        assert(kept(index, found[0]));
    }
}

/// That two documents collide says the same of both.
pub proof fn collisions_are_mutual(a: DocModel, b: DocModel, index: IndexModel)
    ensures
        documents_collide(a, b, index) ==> documents_collide(b, a, index),
{
    if documents_collide(a, b, index) {
        let tuple = choose|tuple: Seq<DocModel>| #[trigger]
            has_tuple(b, index, tuple) && collides(a, index, tuple);
        let other = choose|other: Seq<DocModel>|
            has_tuple(a, index, other) && #[trigger] tuples_equal(other, tuple);
        assert forall|i: int| 0 <= i < tuple.len() implies related(#[trigger] tuple[i], other[i])
            == Some(Relation::Equal) by {
            lemma_related_flips(other[i], tuple[i]);
            assert(related(other[i], tuple[i]) == Some(Relation::Equal));
        }
        assert(tuples_equal(tuple, other));
        assert(collides(b, index, other));
    }
}

} // verus!

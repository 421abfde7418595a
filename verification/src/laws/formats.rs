//! Documents as bytes, and how a log begins.

use crate::bytes::{le_bytes, lemma_le_len, lemma_pow256_positive, pow256};
use crate::document::DocModel;
use crate::durability::{pending_images, wal_header};
use crate::encoding::{decoded, encoded, encoded_entries, encoded_items, int_bits};
use crate::storage::PageId;
use vstd::arithmetic::div_mod::lemma_div_denominator;
use vstd::prelude::*;
use vstd::utf8::encode_utf8;

verus! {

/// The bytes of a number come from the lowest to the highest.
pub proof fn the_lowest_byte_comes_first(n: nat, k: nat, i: int)
    requires
        0 <= i < k,
    ensures
        le_bytes(n, k).len() == k,
        le_bytes(n, k)[i] == n / pow256(i as nat) % 256,
    decreases k,
{
    lemma_le_len(n, k);
    if i > 0 {
        let j = (i - 1) as nat;
        the_lowest_byte_comes_first(n / 256, (k - 1) as nat, i - 1);
        lemma_pow256_positive(j);
        lemma_div_denominator(n as int, 256, pow256(j) as int);
        assert(le_bytes(n, k)[i] == le_bytes(n / 256, (k - 1) as nat)[i - 1]);
        assert(pow256(i as nat) == 256 * pow256(j));
        assert(n / 256 / pow256(j) == n / pow256(i as nat));
    } else {
        assert(pow256(0) == 1);
        assert(n / 1 == n);
        assert(le_bytes(n, k)[0] == n % 256);
    }
}

/// The first byte of a document says what it is; behind it come, of a boolean,
/// one byte, of a number its eight bytes, of an id its sixteen, of a text and of
/// bytes their length and they themselves.
pub proof fn the_first_byte_says_what_a_document_is(m: DocModel)
    ensures
        encoded(m).len() > 0,
        encoded(m)[0] == match m {
            DocModel::Null => 0u8,
            DocModel::Bool(_) => 1,
            DocModel::Int(_) => 2,
            DocModel::Float(_) => 3,
            DocModel::String(_) => 4,
            DocModel::Binary(_) => 5,
            DocModel::Array(_) => 6,
            DocModel::Object(_) => 7,
            DocModel::Id(_) => 8,
        },
        m is Null ==> encoded(m).len() == 1,
        m matches DocModel::Bool(b) ==> encoded(m).skip(1) == seq![
            if b {
                1u8
            } else {
                0u8
            },
        ],
        m matches DocModel::Int(n) ==> encoded(m).skip(1) == le_bytes(
            if n < 0 {
                (n + 0x1_0000_0000_0000_0000) as nat
            } else {
                n as nat
            },
            8,
        ),
        m matches DocModel::Float(bits) ==> encoded(m).skip(1) == le_bytes(bits as nat, 8),
        m matches DocModel::Id(id) ==> encoded(m).skip(1) == id,
        m matches DocModel::String(s) ==> encoded(m).skip(1) == le_bytes(encode_utf8(s).len(), 4)
            + encode_utf8(s),
        m matches DocModel::Binary(b) ==> encoded(m).skip(1) == le_bytes(b.len(), 4) + b,
{
    match m {
        DocModel::Null => {},
        DocModel::Bool(b) => {
            assert(encoded(m).skip(1) =~= seq![
            if b {
                1u8
            } else {
                0u8
            },
        ]);
        },
        DocModel::Int(n) => {
            assert(encoded(m).skip(1) =~= le_bytes(int_bits(n), 8));
        },
        DocModel::Float(bits) => {
            assert(encoded(m).skip(1) =~= le_bytes(bits as nat, 8));
        },
        DocModel::String(s) => {
            assert(encoded(m).skip(1) =~= le_bytes(encode_utf8(s).len(), 4) + encode_utf8(s));
        },
        DocModel::Binary(b) => {
            assert(encoded(m).skip(1) =~= le_bytes(b.len(), 4) + b);
        },
        DocModel::Id(id) => {
            assert(encoded(m).skip(1) =~= id);
        },
        _ => {},
    }
}

/// An array's bytes are the number of its elements and, one after the other,
/// theirs.
pub proof fn an_array_is_its_elements(a: Seq<DocModel>, b: Seq<DocModel>, m: DocModel)
    ensures
        encoded(DocModel::Array(a)) == seq![6u8] + le_bytes(a.len(), 4) + encoded_items(a),
        encoded_items(a + b) == encoded_items(a) + encoded_items(b),
        encoded_items(seq![m]) == encoded(m),
    decreases a.len(),
{
    let one = seq![m];
    assert(one.skip(1) =~= Seq::<DocModel>::empty());
    assert(encoded_items(one.skip(1)) =~= Seq::<u8>::empty());
    assert(encoded_items(one) =~= encoded(m));
    if a.len() == 0 {
        assert(a + b =~= b);
        assert(encoded_items(a) + encoded_items(b) =~= encoded_items(b));
    } else {
        an_array_is_its_elements(a.skip(1), b, m);
        assert((a + b).skip(1) =~= a.skip(1) + b);
        assert(encoded_items(a + b) =~= encoded_items(a) + encoded_items(b));
    }
}

/// An object's bytes are the number of its fields and, one after the other,
/// theirs: the length of the name, the name and the value.
pub proof fn an_object_is_its_fields(
    a: Seq<(Seq<char>, DocModel)>,
    b: Seq<(Seq<char>, DocModel)>,
    name: Seq<char>,
    m: DocModel,
)
    ensures
        encoded(DocModel::Object(a)) == seq![7u8] + le_bytes(a.len(), 4) + encoded_entries(a),
        encoded_entries(a + b) == encoded_entries(a) + encoded_entries(b),
        encoded_entries(seq![(name, m)]) == le_bytes(encode_utf8(name).len(), 4) + encode_utf8(name)
            + encoded(m),
    decreases a.len(),
{
    let one = seq![(name, m)];
    assert(one.skip(1) =~= Seq::<(Seq<char>, DocModel)>::empty());
    assert(encoded_entries(one.skip(1)) =~= Seq::<u8>::empty());
    assert(encoded_entries(one) =~= le_bytes(encode_utf8(name).len(), 4) + encode_utf8(name)
        + encoded(m));
    if a.len() == 0 {
        assert(a + b =~= b);
        assert(encoded_entries(a) + encoded_entries(b) =~= encoded_entries(b));
    } else {
        an_object_is_its_fields(a.skip(1), b, name, m);
        assert((a + b).skip(1) =~= a.skip(1) + b);
        assert(encoded_entries(a + b) =~= encoded_entries(a) + encoded_entries(b));
    }
}

/// Bytes that begin with no document's first byte, and none at all, can't be
/// read, and neither can an array or an object where none may open.
pub proof fn what_is_no_document_cannot_be_read(bytes: Seq<u8>, levels: nat)
    requires
        bytes.len() == 0 || bytes[0] > 8 || (levels == 0 && (bytes[0] == 6 || bytes[0] == 7)),
    ensures
        decoded(bytes, levels) is None,
{
}

/// A log that doesn't begin with its name is refused; one that is too short to
/// begin with it and its version holds nothing.
pub proof fn a_log_begins_with_its_name(page_len: nat, bytes: Seq<u8>, i: int)
    requires
        0 <= i < 8,
    ensures
        bytes.len() < 12 ==> pending_images(page_len, bytes) == Some(
            Seq::<(PageId, Seq<u8>)>::empty(),
        ),
        bytes.len() >= 12 && bytes[i] as u32 != "TRUNKWAL"@[i] as u32 ==> pending_images(
            page_len,
            bytes,
        ) is None,
{
    reveal_strlit("TRUNKWAL");
    if bytes.len() >= 12 && bytes[i] as u32 != "TRUNKWAL"@[i] as u32 {
        assert(bytes.take(12)[i] == bytes[i]);
        assert(wal_header()[i] as u32 == "TRUNKWAL"@[i] as u32);
    }
}

} // verus!

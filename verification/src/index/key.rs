//! Index keys are byte strings, compared byte by byte, so the B-tree needs
//! to know nothing about documents.
//!
//! - The primary index's key is the 16-byte `DocId`.
//! - A secondary index's key is the indexed field's value, encoded so that
//!   byte order matches a filter's order, followed by the `DocId`: every
//!   key is unique even when many documents share a value, and removing one
//!   document's entry names exactly one key.
//! - A compound index's key is several values encoded one after another,
//!   then the `DocId`. The encoding is prefix-free, so the keys sort by the
//!   first value, then the second, and so on.

use crate::bytes::{
    be_bytes, from_be, get_be, lemma_be_len, lemma_be_roundtrip, lemma_pow256_values, put_be,
};
use crate::document::{DocId, DocModel, Document};
use crate::number::{
    float_is_nan, float_of_int, int_to_float, magnitude, nan, rank, rounding_keeps_order,
    small_integers_are_exact,
};
use crate::order::{
    bytes_le, bytes_lt, lemma_lt_asymmetric, lemma_lt_common_front, lemma_lt_extends, starts_with,
};
pub use super::range::{prefix_end, range_for, range_for_in, KeyRange};
use crate::query::{related, Relation};
use vstd::prelude::*;
use vstd::slice::{slice_subrange, slice_to_vec};
use vstd::utf8::encode_utf8;

verus! {

/// Longest key the B-tree accepts. Small enough that any page holds at
/// least four entries, which is what keeps splits safe with keys of
/// different lengths.
pub const MAX_KEY_LEN: usize = 1024;

/// Most fields a compound index may have: each gets an even share of the
/// key.
pub const MAX_COMPOUND_FIELDS: usize = 8;

// Type tags, the first byte of an encoded value. Values of different types
// never compare in a filter, so their relative order here is arbitrary;
// grouping them by tag is what matters, so a range stays within one type.
pub const TAG_NULL: u8 = 0;

pub const TAG_BOOL: u8 = 1;

pub const TAG_NUMBER: u8 = 2;

pub const TAG_STRING: u8 = 3;

/// A value only compound keys hold: arrays, objects, binary, ids, NaN,
/// everything `encode_value` leaves out. Last, as such values sort after
/// everything. No bytes after the tag: they're all one value to the index.
pub const TAG_OTHER: u8 = 0xFF;

/// How many bytes an escaped string may take in a key of `fields` values,
/// so that each value's tag, string and terminator, and the `DocId`, stay
/// within `MAX_KEY_LEN`.
pub open spec fn budget(fields: int) -> int {
    (MAX_KEY_LEN - 16) / fields - 3
}

/// `budget`, computed.
pub fn string_budget(fields: usize) -> (n: usize)
    requires
        1 <= fields <= MAX_COMPOUND_FIELDS,
    ensures
        n == budget(fields as int),
        n >= 123,
{
    assert((MAX_KEY_LEN - 16) / fields as int >= 126) by (nonlinear_arith)
        requires
            1 <= fields <= 8,
            MAX_KEY_LEN == 1024,
    ;
    (MAX_KEY_LEN - 16) / fields - 3
}

// ---------------------------------------------------------------------
// Encoding values.

/// A number that orders as the float does, from 0: big-endian bytes of it
/// sort as the floats do. Positive floats have their top bit set, negative
/// ones all bits flipped.
pub open spec fn sortable(bits: u64) -> nat {
    (rank(bits) + 0x8000_0000_0000_0000 - (if rank(bits) < 0 {
        1int
    } else {
        0
    })) as nat
}

/// A number's key: `None` for a NaN.
pub open spec fn number_key(bits: u64) -> Option<Seq<u8>> {
    if nan(bits) {
        None
    } else {
        Some(seq![TAG_NUMBER] + be_bytes(sortable(bits), 8))
    }
}

/// How many bytes `b` takes when escaped.
pub open spec fn escaped_width(b: u8) -> int {
    if b == 0 {
        2
    } else {
        1
    }
}

/// `b`, a zero byte followed by `0xFF`.
pub open spec fn escaped_byte(b: u8) -> Seq<u8> {
    if b == 0 {
        seq![0u8, 0xFFu8]
    } else {
        seq![b]
    }
}

/// `bytes` escaped, cut off after `room` escaped bytes.
pub open spec fn escaped(bytes: Seq<u8>, room: int) -> Seq<u8>
    decreases bytes.len(),
{
    if bytes.len() == 0 || escaped_width(bytes[0]) > room {
        seq![]
    } else {
        escaped_byte(bytes[0]) + escaped(bytes.skip(1), room - escaped_width(bytes[0]))
    }
}

/// An escaped string and its terminator.
pub open spec fn string_body(bytes: Seq<u8>, room: int) -> Seq<u8> {
    escaped(bytes, room) + seq![0u8, 0u8]
}

/// A string's key.
pub open spec fn string_key(bytes: Seq<u8>, room: int) -> Seq<u8> {
    seq![TAG_STRING] + string_body(bytes, room)
}

/// The key of a value in an index of `fields` fields, or `None` if the
/// value isn't indexed by itself. An integer is encoded as the float
/// nearest to it, as a filter compares integers with floats.
pub open spec fn value_key(m: DocModel, fields: int) -> Option<Seq<u8>> {
    match m {
        DocModel::Null => Some(seq![TAG_NULL]),
        DocModel::Bool(b) => Some(
            seq![
                TAG_BOOL,
                if b {
                    1u8
                } else {
                    0u8
                },
            ],
        ),
        DocModel::Int(n) => number_key(float_of_int(n)),
        DocModel::Float(f) => number_key(f),
        DocModel::String(s) => Some(string_key(encode_utf8(s), budget(fields))),
        _ => None,
    }
}

/// The key of a value inside a compound key.
pub open spec fn compound_part(m: DocModel, fields: int) -> Seq<u8> {
    match value_key(m, fields) {
        Some(key) => key,
        None => seq![TAG_OTHER],
    }
}

/// The keys of several values, one after the other.
pub open spec fn joined_parts(values: Seq<DocModel>, fields: int) -> Seq<u8>
    decreases values.len(),
{
    if values.len() == 0 {
        seq![]
    } else {
        compound_part(values[0], fields) + joined_parts(values.skip(1), fields)
    }
}

/// The value part of a compound key.
pub open spec fn values_key(values: Seq<DocModel>) -> Seq<u8> {
    joined_parts(values, values.len() as int)
}

/// The values behind borrowed documents.
pub open spec fn borrowed(values: Seq<&Document>) -> Seq<DocModel> {
    Seq::new(values.len(), |i: int| values[i]@)
}

fn encode_number(bits: u64) -> (r: Option<Vec<u8>>)
    ensures
        match r {
            Some(key) => number_key(bits) == Some(key@),
            None => number_key(bits) is None,
        },
{
    if float_is_nan(bits) {
        return None;
    }
    let number: u64 = if bits == 0x8000_0000_0000_0000 {
        0x8000_0000_0000_0000
    } else if bits > 0x8000_0000_0000_0000 {
        0xFFFF_FFFF_FFFF_FFFF - bits
    } else {
        bits + 0x8000_0000_0000_0000
    };
    assert(number == sortable(bits));
    let mut out: Vec<u8> = vec![TAG_NUMBER];
    put_be(&mut out, number, 8);
    assert(out@ =~= seq![TAG_NUMBER] + be_bytes(sortable(bits), 8));
    Some(out)
}

/// The string's bytes with `0x00` escaped as `0x00 0xFF`, then a
/// `0x00 0x00` terminator: sorts like the plain bytes, and the terminator
/// makes it prefix-free. Cut off after `room` escaped bytes.
fn encode_string(bytes: &[u8], room: usize) -> (out: Vec<u8>)
    ensures
        out@ == string_key(bytes@, room as int),
{
    let mut out: Vec<u8> = vec![TAG_STRING];
    let mut used: usize = 0;
    let n: usize = bytes.len();
    let mut i: usize = 0;
    assert(bytes@.skip(0) =~= bytes@);
    assert(out@ + escaped(bytes@, room as int) =~= seq![TAG_STRING] + escaped(bytes@, room as int));
    while i < n
        invariant
            i <= n == bytes@.len(),
            used <= room,
            out@ + escaped(bytes@.skip(i as int), room - used) == seq![TAG_STRING] + escaped(
                bytes@,
                room as int,
            ),
        ensures
            out@ == seq![TAG_STRING] + escaped(bytes@, room as int),
        decreases n - i,
    {
        let b: u8 = bytes[i];
        let width: usize = if b == 0 {
            2
        } else {
            1
        };
        let ghost left = bytes@.skip(i as int);
        let ghost before = out@;
        if room - used < width {
            assert(out@ + escaped(left, room - used) =~= out@);
            break ;
        }
        used = used + width;
        out.push(b);
        if b == 0 {
            out.push(0xFF);
        }
        i = i + 1;
        proof {
            assert(left.skip(1) =~= bytes@.skip(i as int));
            assert(out@ + escaped(bytes@.skip(i as int), room - used) =~= before + escaped(
                left,
                room - used + width,
            ));
            if i == n {
                assert(out@ + escaped(bytes@.skip(i as int), room - used) =~= out@);
            }
        }
    }
    out.push(0);
    out.push(0);
    assert(out@ =~= string_key(bytes@, room as int));
    out
}

/// `encode_value` for one of `fields` values in a key.
pub fn encode_value_in(value: &Document, fields: usize) -> (r: Option<Vec<u8>>)
    requires
        1 <= fields <= MAX_COMPOUND_FIELDS,
    ensures
        match r {
            Some(key) => value_key(value@, fields as int) == Some(key@),
            None => value_key(value@, fields as int) is None,
        },
{
    match value {
        Document::Null => {
            let key: Vec<u8> = vec![TAG_NULL];
            assert(key@ =~= seq![TAG_NULL]);
            Some(key)
        },
        Document::Bool(b) => {
            let key: Vec<u8> = vec![
                TAG_BOOL,
                if *b {
                    1u8
                } else {
                    0u8
                },
            ];
            assert(Some(key@) == value_key(value@, fields as int)) by {
                assert(key@ =~= value_key(value@, fields as int)->Some_0);
            }
            Some(key)
        },
        Document::Int(n) => encode_number(int_to_float(*n)),
        Document::Float(f) => encode_number(*f),
        Document::String(s) => Some(encode_string(s.as_str().as_bytes(), string_budget(fields))),
        _ => None,
    }
}

/// Encodes a field value so that byte order agrees with a filter's
/// comparisons. Only the types a comparison can match are indexed: `Null`
/// (which also stands for a missing field), `Bool`, `Int`/`Float`,
/// `String`. Anything else is `None`: no comparison by order can match it,
/// so leaving it out of the index loses nothing.
pub fn encode_value(value: &Document) -> (r: Option<Vec<u8>>)
    ensures
        match r {
            Some(key) => value_key(value@, 1) == Some(key@),
            None => value_key(value@, 1) is None,
        },
{
    encode_value_in(value, 1)
}

/// A compound key's value part: each value as `encode_value` encodes it,
/// strings cut to an even share of the key, and a value it leaves out as
/// `TAG_OTHER`. A compound index holds every document.
pub fn encode_values(values: &[&Document]) -> (out: Vec<u8>)
    requires
        values@.len() <= MAX_COMPOUND_FIELDS,
    ensures
        out@ == values_key(borrowed(values@)),
{
    let mut out: Vec<u8> = Vec::new();
    let n: usize = values.len();
    let ghost all = borrowed(values@);
    assert(all.skip(0) =~= all);
    assert(out@ + joined_parts(all.skip(0), n as int) =~= values_key(all));
    for i in 0..n
        invariant
            n == values@.len() <= MAX_COMPOUND_FIELDS,
            all == borrowed(values@),
            out@ + joined_parts(all.skip(i as int), n as int) == values_key(all),
    {
        let ghost before = out@;
        match encode_value_in(values[i], n) {
            Some(key) => {
                out.extend_from_slice(key.as_slice());
            },
            None => {
                out.push(TAG_OTHER);
            },
        }
        proof {
            let left = all.skip(i as int);
            assert(left.skip(1) =~= all.skip(i + 1));
            assert(out@ =~= before + compound_part(left[0], n as int));
            assert(out@ + joined_parts(all.skip(i + 1), n as int) =~= before + joined_parts(
                left,
                n as int,
            ));
        }
    }
    assert(out@ + joined_parts(all.skip(n as int), n as int) =~= out@);
    out
}

/// The primary index's key of a document.
pub fn primary(id: DocId) -> (key: Vec<u8>)
    ensures
        key@ == id@,
{
    slice_to_vec(id.0.as_slice())
}

/// A compound index's key for a document with these values in its fields,
/// in order.
pub fn compound(values: &[&Document], id: DocId) -> (key: Vec<u8>)
    requires
        values@.len() <= MAX_COMPOUND_FIELDS,
    ensures
        key@ == values_key(borrowed(values@)) + id@,
{
    let mut key = encode_values(values);
    key.extend_from_slice(id.0.as_slice());
    assert(key@ =~= values_key(borrowed(values@)) + id@);
    key
}

/// The secondary-index key for a document whose field holds `value`, or
/// `None` if that value isn't indexed.
pub fn secondary(value: &Document, id: DocId) -> (r: Option<Vec<u8>>)
    ensures
        match r {
            Some(key) => value_key(value@, 1) matches Some(part) && key@ == part + id@,
            None => value_key(value@, 1) is None,
        },
{
    match encode_value(value) {
        Some(mut key) => {
            let ghost part = key@;
            key.extend_from_slice(id.0.as_slice());
            assert(key@ =~= part + id@);
            Some(key)
        },
        None => None,
    }
}

// ---------------------------------------------------------------------
// Taking keys apart. The keys were read from the file: a damaged one gets a
// cautious answer, never a panic.

/// The id a key ends with; a key shorter than an id is zero-padded in
/// front.
pub open spec fn key_id(key: Seq<u8>) -> Seq<u8> {
    if key.len() >= 16 {
        key.skip(key.len() - 16)
    } else {
        Seq::new((16 - key.len()) as nat, |i: int| 0u8) + key
    }
}

/// A key without its trailing id.
pub open spec fn key_value(key: Seq<u8>) -> Seq<u8> {
    if key.len() >= 16 {
        key.take(key.len() - 16)
    } else {
        seq![]
    }
}

/// The document id a key ends with: the whole key for the primary index,
/// the last 16 bytes for a secondary one.
pub fn doc_id(key: &[u8]) -> (id: DocId)
    ensures
        id@ == key_id(key@),
{
    let n: usize = key.len();
    if n >= 16 {
        let tail: &[u8] = slice_subrange(key, n - 16, n);
        assert(tail@ =~= key_id(key@));
        DocId::from_slice(tail)
    } else {
        let mut padded: Vec<u8> = Vec::new();
        for i in 0..16 - n
            invariant
                n < 16,
                padded@ == Seq::new(i as nat, |k: int| 0u8),
        {
            padded.push(0);
            assert(padded@ =~= Seq::new((i + 1) as nat, |k: int| 0u8));
        }
        padded.extend_from_slice(key);
        assert(padded@ =~= key_id(key@));
        DocId::from_slice(padded.as_slice())
    }
}

/// A secondary key without its trailing `DocId`: the encoded value.
pub fn value_part(key: &[u8]) -> (part: &[u8])
    ensures
        part@ == key_value(key@),
{
    let n: usize = key.len();
    let cut: usize = if n >= 16 {
        n - 16
    } else {
        0
    };
    let part: &[u8] = slice_subrange(key, 0, cut);
    assert(part@ =~= key_value(key@));
    part
}

/// Whether bytes are one value's encoding from its tag to its end, with
/// nothing cut off and nothing behind it.
pub open spec fn whole_part(part: Seq<u8>) -> bool {
    part.len() > 0 && if part[0] == TAG_NULL || part[0] == TAG_OTHER {
        part.len() == 1
    } else if part[0] == TAG_BOOL {
        part.len() == 2
    } else if part[0] == TAG_NUMBER {
        part.len() == 9
    } else {
        part[0] == TAG_STRING && string_end(part, 1) == Some(part.len() as int)
    }
}

/// Whether every value encoded as `part` in a key of `fields` values is
/// equal to every other. Errs towards `false`: what isn't one whole encoding
/// is not exact.
pub open spec fn exact_part(part: Seq<u8>, fields: int) -> bool {
    whole_part(part) && if part[0] == TAG_NUMBER {
        ({
            let number = from_be(part.subrange(1, 9));
            if number >= 0x8000_0000_0000_0000 {
                number - 0x8000_0000_0000_0000 < 0x4340_0000_0000_0000
            } else {
                0x7FFF_FFFF_FFFF_FFFF - number < 0x4340_0000_0000_0000
            }
        })
    } else if part[0] == TAG_STRING {
        part.len() - 3 < budget(fields) - 1
    } else {
        part[0] != TAG_OTHER
    }
}

/// Whether every value encoded as `value_part` is equal to every other (as
/// a filter compares). Almost always: only numbers beyond 2^53 (where
/// different integers round to one float) and strings cut to the key
/// budget can share an encoding without being equal.
pub fn is_exact(value_part: &[u8]) -> (r: bool)
    ensures
        r == exact_part(value_part@, 1),
{
    part_is_exact(value_part, 1)
}

/// `is_exact` for one value of a key of `fields` values.
pub fn part_is_exact(part: &[u8], fields: usize) -> (r: bool)
    requires
        1 <= fields <= MAX_COMPOUND_FIELDS,
    ensures
        r == exact_part(part@, fields as int),
{
    let n: usize = part.len();
    if n == 0 {
        return false;
    }
    let tag: u8 = part[0];
    if tag == TAG_NUMBER {
        if n != 9 {
            return false;
        }
        let number: u64 = get_be(slice_subrange(part, 1, 9));
        // The float's bits without their sign; 2^53 as a float is the bound.
        let bits: u64 = if number >= 0x8000_0000_0000_0000 {
            number - 0x8000_0000_0000_0000
        } else {
            0x7FFF_FFFF_FFFF_FFFF - number
        };
        bits < 0x4340_0000_0000_0000
    } else if tag == TAG_STRING {
        proof {
            lemma_string_end(part@, 1);
        }
        match string_len(part) {
            Some(end) => end == n && n - 3 < string_budget(fields) - 1,
            None => false,
        }
    } else if tag == TAG_BOOL {
        n == 2
    } else {
        tag == TAG_NULL && n == 1
    }
}

/// Whether one value of a compound key is `TAG_OTHER`: a value that sorts
/// after everything, whichever the direction.
pub fn is_other(part: &[u8]) -> (r: bool)
    ensures
        r == (part@.len() > 0 && part@[0] == TAG_OTHER),
{
    part.len() > 0 && part[0] == TAG_OTHER
}

/// Where the string encoded in `encoded` ends, looking for its terminator
/// from `at` on; `None` if the terminator is missing.
pub open spec fn string_end(encoded: Seq<u8>, at: int) -> Option<int>
    decreases encoded.len() - at,
{
    if at < 0 || at + 1 >= encoded.len() {
        None
    } else if encoded[at] == 0 && encoded[at + 1] == 0 {
        Some(at + 2)
    } else if encoded[at] == 0 {
        string_end(encoded, at + 2)
    } else {
        string_end(encoded, at + 1)
    }
}

/// How long the first value of a compound key's value part is.
pub open spec fn first_part_len(bytes: Seq<u8>) -> int {
    let len = if bytes[0] == TAG_NULL || bytes[0] == TAG_OTHER {
        1int
    } else if bytes[0] == TAG_BOOL {
        2
    } else if bytes[0] == TAG_NUMBER {
        9
    } else {
        match string_end(bytes, 1) {
            Some(end) => end,
            None => bytes.len() as int,
        }
    };
    if len < bytes.len() {
        len
    } else {
        bytes.len() as int
    }
}

/// A compound key's value part, split into its values' encodings. In a
/// damaged key, whatever is left when a value runs past the end is one last
/// part.
pub open spec fn key_parts(bytes: Seq<u8>) -> Seq<Seq<u8>>
    decreases bytes.len(),
{
    if bytes.len() == 0 {
        seq![]
    } else {
        proof {
            lemma_string_end(bytes, 1);
        }
        let len = first_part_len(bytes);
        seq![bytes.take(len)] + key_parts(bytes.skip(len))
    }
}

pub proof fn lemma_string_end(encoded: Seq<u8>, at: int)
    requires
        at >= 1,
    ensures
        string_end(encoded, at) matches Some(end) ==> at + 2 <= end <= encoded.len(),
    decreases encoded.len() - at,
{
    if at + 1 < encoded.len() {
        if encoded[at] == 0 && encoded[at + 1] != 0 {
            lemma_string_end(encoded, at + 2);
        } else if encoded[at] != 0 {
            lemma_string_end(encoded, at + 1);
        }
    }
}

/// An encoded string's length, tag through terminator; `None` if the
/// terminator is missing.
fn string_len(encoded: &[u8]) -> (r: Option<usize>)
    ensures
        match r {
            Some(end) => string_end(encoded@, 1) == Some(end as int),
            None => string_end(encoded@, 1) is None,
        },
{
    let n: usize = encoded.len();
    let mut at: usize = 1;
    while at < n && n - at > 1
        invariant
            n == encoded@.len(),
            1 <= at,
            at <= n + 1,
            string_end(encoded@, 1) == string_end(encoded@, at as int),
        decreases n + 2 - at,
    {
        if encoded[at] == 0 {
            if encoded[at + 1] == 0 {
                return Some(at + 2);
            }
            at = at + 2;
        } else {
            at = at + 1;
        }
    }
    None
}

/// A compound key's value part, split into its values' encodings.
pub fn parts(value_part: &[u8]) -> (r: Vec<&[u8]>)
    ensures
        r@.len() == key_parts(value_part@).len(),
        forall|i: int| 0 <= i < r@.len() ==> (#[trigger] r@[i])@ == key_parts(value_part@)[i],
{
    let mut parts: Vec<&[u8]> = Vec::new();
    let mut rest: &[u8] = value_part;
    let ghost whole = key_parts(value_part@);
    while rest.len() > 0
        invariant
            whole == key_parts(value_part@),
            parts@.len() + key_parts(rest@).len() == whole.len(),
            forall|i: int| 0 <= i < parts@.len() ==> (#[trigger] parts@[i])@ == whole[i],
            forall|i: int|
                0 <= i < key_parts(rest@).len() ==> #[trigger] key_parts(rest@)[i] == whole[
                parts@.len() + i],
        decreases rest@.len(),
    {
        let tag: u8 = rest[0];
        let n: usize = rest.len();
        proof {
            lemma_string_end(rest@, 1);
        }
        let len: usize = if tag == TAG_NULL || tag == TAG_OTHER {
            1
        } else if tag == TAG_BOOL {
            2
        } else if tag == TAG_NUMBER {
            9
        } else {
            match string_len(rest) {
                Some(len) => len,
                None => n,
            }
        };
        let len: usize = if len < n {
            len
        } else {
            n
        };
        let ghost before = rest@;
        let (part, after) = rest.split_at(len);
        proof {
            assert(part@ =~= before.take(len as int));
            assert(after@ =~= before.skip(len as int));
            let p = key_parts(before);
            assert(p[0] == part@);
            assert forall|i: int| 0 <= i < key_parts(after@).len() implies #[trigger] key_parts(
                after@,
            )[i] == whole[parts@.len() + 1 + i] by {
                assert(p[i + 1] == key_parts(after@)[i]);
                assert(p[i + 1] == whole[parts@.len() + (i + 1)]);
            }
            assert(p[0] == whole[parts@.len() + 0int]);
        }
        parts.push(part);
        rest = after;
    }
    parts
}

// ---------------------------------------------------------------------
// Laws.

/// Two byte strings of which neither begins the other, unless they are the
/// same.
pub open spec fn apart(a: Seq<u8>, b: Seq<u8>) -> bool {
    (starts_with(a, b) || starts_with(b, a)) ==> a == b
}

proof fn lemma_be_order(a: nat, b: nat, k: nat)
    requires
        a < b < crate::bytes::pow256(k),
    ensures
        bytes_lt(be_bytes(a, k), be_bytes(b, k)),
    decreases k,
{
    if k > 0 {
        let j = (k - 1) as nat;
        let x = be_bytes(a / 256, j);
        let y = be_bytes(b / 256, j);
        lemma_be_len(a / 256, j);
        lemma_be_len(b / 256, j);
        let p = seq![(a % 256) as u8];
        let q = seq![(b % 256) as u8];
        assert(be_bytes(a, k) =~= x + p);
        assert(be_bytes(b, k) =~= y + q);
        if a / 256 < b / 256 {
            lemma_be_order(a / 256, b / 256, j);
            lemma_lt_asymmetric(x, y);
            assert(y.take(x.len() as int) =~= y);
            lemma_lt_extends(x, y, p, q);
        } else {
            assert(a / 256 == b / 256);
            lemma_lt_common_front(x, p, q);
        }
    }
}

proof fn lemma_sortable(bits: u64)
    ensures
        sortable(bits) < 0x1_0000_0000_0000_0000,
{
}

/// Number keys sort as the numbers do.
pub proof fn lemma_number_order(a: u64, b: u64)
    requires
        !nan(a),
        !nan(b),
        rank(a) <= rank(b),
    ensures
        bytes_le(number_key(a)->Some_0, number_key(b)->Some_0),
        rank(a) < rank(b) ==> bytes_lt(number_key(a)->Some_0, number_key(b)->Some_0),
{
    lemma_sortable(a);
    lemma_sortable(b);
    lemma_pow256_values();
    if rank(a) < rank(b) {
        lemma_be_order(sortable(a), sortable(b), 8);
        lemma_lt_common_front(
            seq![TAG_NUMBER],
            be_bytes(sortable(a), 8),
            be_bytes(sortable(b), 8),
        );
    }
}

proof fn lemma_escaped_len(bytes: Seq<u8>, room: int)
    requires
        room >= 0,
    ensures
        escaped(bytes, room).len() <= room,
    decreases bytes.len(),
{
    if bytes.len() > 0 && escaped_width(bytes[0]) <= room {
        lemma_escaped_len(bytes.skip(1), room - escaped_width(bytes[0]));
    }
}

proof fn lemma_body_step(bytes: Seq<u8>, room: int)
    requires
        bytes.len() > 0,
        escaped_width(bytes[0]) <= room,
    ensures
        string_body(bytes, room) == escaped_byte(bytes[0]) + string_body(
            bytes.skip(1),
            room - escaped_width(bytes[0]),
        ),
{
    assert(string_body(bytes, room) =~= escaped_byte(bytes[0]) + string_body(
        bytes.skip(1),
        room - escaped_width(bytes[0]),
    ));
}

/// Escaped strings sort as the strings do, or come out the same where the
/// cut hides the difference.
proof fn lemma_body_order(a: Seq<u8>, b: Seq<u8>, room: int)
    requires
        bytes_lt(a, b),
    ensures
        bytes_le(string_body(a, room), string_body(b, room)),
    decreases a.len(),
{
    let end = seq![0u8, 0u8];
    let x = string_body(a, room);
    let y = string_body(b, room);
    if escaped_width(b[0]) > room {
        assert(y =~= end);
        if a.len() == 0 || escaped_width(a[0]) > room {
            assert(x =~= end);
        } else {
            assert(false);
        }
    } else if a.len() == 0 {
        assert(x =~= end);
        lemma_body_step(b, room);
        let front = escaped_byte(b[0]);
        if b[0] == 0 {
            assert(y[0] == 0 && y[1] == 0xFF);
            assert(x.skip(1)[0] == 0 && y.skip(1)[0] == 0xFF);
            assert(bytes_lt(x.skip(1), y.skip(1)));
        } else {
            assert(y[0] == b[0]);
        }
    } else if a[0] == b[0] {
        let w = escaped_width(a[0]);
        lemma_body_step(a, room);
        lemma_body_step(b, room);
        lemma_body_order(a.skip(1), b.skip(1), room - w);
        lemma_lt_common_front(
            escaped_byte(a[0]),
            string_body(a.skip(1), room - w),
            string_body(b.skip(1), room - w),
        );
    } else {
        lemma_body_step(b, room);
        assert(y[0] == b[0]);
        if escaped_width(a[0]) > room {
            assert(x =~= end);
        } else {
            lemma_body_step(a, room);
            assert(x[0] == a[0]);
        }
    }
}

/// No escaped string begins another.
proof fn lemma_body_apart(a: Seq<u8>, b: Seq<u8>, p: int, q: int)
    requires
        starts_with(string_body(b, q), string_body(a, p)),
    ensures
        string_body(a, p) == string_body(b, q),
    decreases a.len(),
{
    let end = seq![0u8, 0u8];
    let x = string_body(a, p);
    let y = string_body(b, q);
    assert(forall|i: int| 0 <= i < x.len() ==> x[i] == #[trigger] y.take(x.len() as int)[i]);
    assert(forall|i: int| 0 <= i < x.len() ==> #[trigger] x[i] == y[i]);
    let a_ends = a.len() == 0 || escaped_width(a[0]) > p;
    let b_ends = b.len() == 0 || escaped_width(b[0]) > q;
    if a_ends {
        assert(x =~= end);
        if b_ends {
            assert(y =~= end);
        } else {
            lemma_body_step(b, q);
            assert(x[0] == 0 && x[1] == 0);
            assert(y[0] == 0 && y[1] == 0);
            assert(y[0] == escaped_byte(b[0])[0]);
            assert(y[1] == 0xFF);
        }
    } else {
        lemma_body_step(a, p);
        if b_ends {
            assert(y =~= end);
            assert(x[0] == 0);
            assert(x[1] == 0xFF);
        } else {
            lemma_body_step(b, q);
            assert(x[0] == a[0] && y[0] == b[0]);
            let w = escaped_width(a[0]);
            let r = string_body(a.skip(1), p - w);
            let t = string_body(b.skip(1), q - w);
            assert(t.take(r.len() as int) =~= r) by {
                assert forall|i: int| 0 <= i < r.len() implies t[i] == r[i] by {
                    assert(x[i + w] == r[i]);
                    assert(y[i + w] == t[i]);
                }
            }
            lemma_body_apart(a.skip(1), b.skip(1), p - w, q - w);
        }
    }
}

/// A string whose key left room to spare was not cut: it alone has the key.
proof fn lemma_body_exact(a: Seq<u8>, b: Seq<u8>, room: int)
    requires
        string_body(a, room) == string_body(b, room),
        escaped(a, room).len() < room - 1,
    ensures
        a == b,
    decreases a.len(),
{
    let end = seq![0u8, 0u8];
    let x = string_body(a, room);
    let y = string_body(b, room);
    if a.len() == 0 {
        assert(x =~= end);
        if b.len() > 0 {
            lemma_body_step(b, room);
            assert(y[0] == escaped_byte(b[0])[0]);
            assert(y[1] == 0xFF);
        }
        assert(a =~= b);
    } else {
        lemma_body_step(a, room);
        assert(x[0] == a[0]);
        if b.len() == 0 {
            assert(y =~= end);
            assert(x[1] == 0xFF);
        } else {
            lemma_body_step(b, room);
            assert(y[0] == b[0]);
            let w = escaped_width(a[0]);
            let r = string_body(a.skip(1), room - w);
            let t = string_body(b.skip(1), room - w);
            assert(r =~= x.skip(w));
            assert(t =~= y.skip(w));
            lemma_body_exact(a.skip(1), b.skip(1), room - w);
            assert(a =~= seq![a[0]] + a.skip(1));
            assert(b =~= seq![b[0]] + b.skip(1));
        }
    }
}

proof fn lemma_budget(fields: int)
    requires
        1 <= fields <= MAX_COMPOUND_FIELDS,
    ensures
        budget(fields) >= 123,
        (budget(fields) + 3) * fields <= 1008,
{
    assert(1008int / fields >= 126 && (1008int / fields) * fields <= 1008) by (nonlinear_arith)
        requires
            1 <= fields <= 8,
    ;
}

/// A value that is less in a filter has a key that is not greater, so an
/// index in key order is in the filter's order.
pub proof fn key_order_is_filter_order(a: DocModel, b: DocModel, fields: int)
    requires
        1 <= fields <= MAX_COMPOUND_FIELDS,
        related(a, b) == Some(Relation::Less) || related(a, b) == Some(Relation::Equal),
    ensures
        value_key(a, fields) is Some,
        value_key(b, fields) is Some,
        bytes_le(value_key(a, fields)->Some_0, value_key(b, fields)->Some_0),
        value_key(a, fields)->Some_0[0] == value_key(b, fields)->Some_0[0],
{
    match (a, b) {
        (DocModel::Int(x), DocModel::Int(y)) => {
            rounding_keeps_order(x, y);
            rounding_keeps_order(y, y);
            lemma_number_order(float_of_int(x), float_of_int(y));
        },
        (DocModel::Int(x), DocModel::Float(y)) => {
            lemma_number_order(float_of_int(x), y);
        },
        (DocModel::Float(x), DocModel::Int(y)) => {
            lemma_number_order(x, float_of_int(y));
        },
        (DocModel::Float(x), DocModel::Float(y)) => {
            lemma_number_order(x, y);
        },
        (DocModel::String(x), DocModel::String(y)) => {
            if x != y {
                lemma_body_order(encode_utf8(x), encode_utf8(y), budget(fields));
                lemma_lt_common_front(
                    seq![TAG_STRING],
                    string_body(encode_utf8(x), budget(fields)),
                    string_body(encode_utf8(y), budget(fields)),
                );
            }
        },
        (DocModel::Bool(x), DocModel::Bool(y)) => {
            if x != y {
                let p = value_key(a, fields)->Some_0;
                let q = value_key(b, fields)->Some_0;
                assert(p.skip(1)[0] == 0 && q.skip(1)[0] == 1);
                assert(bytes_lt(p.skip(1), q.skip(1)));
            }
        },
        _ => {},
    }
}

/// No encoded value begins another, so what follows a value in a key can't
/// change the order between two different values.
pub proof fn parts_are_prefix_free(a: DocModel, b: DocModel, fields: int)
    ensures
        apart(compound_part(a, fields), compound_part(b, fields)),
{
    if starts_with(compound_part(b, fields), compound_part(a, fields)) {
        lemma_part_apart(a, b, fields);
    }
    if starts_with(compound_part(a, fields), compound_part(b, fields)) {
        lemma_part_apart(b, a, fields);
    }
}

proof fn lemma_part_apart(a: DocModel, b: DocModel, fields: int)
    requires
        starts_with(compound_part(b, fields), compound_part(a, fields)),
    ensures
        compound_part(a, fields) == compound_part(b, fields),
{
    let x = compound_part(a, fields);
    let y = compound_part(b, fields);
    assert(x.len() > 0);
    assert(y.take(x.len() as int)[0] == y[0]);
    assert(x[0] == y[0]);
    if x[0] == TAG_STRING {
        lemma_part_shape(a, fields);
        lemma_part_shape(b, fields);
        let s = encode_utf8(a->String_0);
        let t = encode_utf8(b->String_0);
        let p = string_body(s, budget(fields));
        let q = string_body(t, budget(fields));
        assert(q.take(p.len() as int) =~= p) by {
            assert forall|i: int| 0 <= i < p.len() implies q[i] == p[i] by {
                assert(x[i + 1] == p[i]);
                assert(y[i + 1] == q[i]);
                assert(y.take(x.len() as int)[i + 1] == y[i + 1]);
            }
        }
        lemma_body_apart(s, t, budget(fields), budget(fields));
    } else {
        lemma_part_shape(a, fields);
        lemma_part_shape(b, fields);
        assert(y.take(x.len() as int) =~= y);
    }
}

/// No indexed value's encoding begins another.
pub proof fn value_keys_are_prefix_free(a: DocModel, b: DocModel, fields: int)
    requires
        value_key(a, fields) is Some,
        value_key(b, fields) is Some,
    ensures
        apart(value_key(a, fields)->Some_0, value_key(b, fields)->Some_0),
{
    parts_are_prefix_free(a, b, fields);
}

pub proof fn lemma_value_key_nonempty(m: DocModel, fields: int)
    ensures
        value_key(m, fields) matches Some(key) ==> key.len() >= 1,
{
}

/// What an encoded value's tag says of it.
proof fn lemma_part_shape(m: DocModel, fields: int)
    ensures
        ({
            let p = compound_part(m, fields);
            &&& p.len() >= 1
            &&& p[0] == TAG_STRING ==> m is String
            &&& p[0] == TAG_NULL ==> p.len() == 1
            &&& p[0] == TAG_OTHER ==> p.len() == 1
            &&& p[0] == TAG_BOOL ==> p.len() == 2
            &&& p[0] == TAG_NUMBER ==> p.len() == 9
            &&& (p[0] == TAG_NULL || p[0] == TAG_BOOL || p[0] == TAG_NUMBER || p[0] == TAG_STRING
                || p[0] == TAG_OTHER)
        }),
{
    match m {
        DocModel::Int(n) => {
            lemma_be_len(sortable(float_of_int(n)), 8);
        },
        DocModel::Float(f) => {
            lemma_be_len(sortable(f), 8);
        },
        _ => {},
    }
}

/// A value part that is `exact` belongs to one value, as a filter compares.
pub proof fn exact_keys_mean_equal_values(a: DocModel, b: DocModel, fields: int)
    requires
        1 <= fields <= MAX_COMPOUND_FIELDS,
        compound_part(a, fields) == compound_part(b, fields),
        exact_part(compound_part(a, fields), fields),
    ensures
        related(a, b) == Some(Relation::Equal),
{
    let p = compound_part(a, fields);
    lemma_part_shape(a, fields);
    lemma_part_shape(b, fields);
    if p[0] == TAG_NUMBER {
        let x = number_bits(a);
        let y = number_bits(b);
        lemma_number_exact(x, y);
        match (a, b) {
            (DocModel::Int(m), DocModel::Int(n)) => {
                small_integers_are_exact(m, n);
            },
            _ => {},
        }
    } else if p[0] == TAG_STRING {
        let s = encode_utf8(a->String_0);
        let t = encode_utf8(b->String_0);
        assert(string_body(s, budget(fields)) =~= p.skip(1));
        assert(string_body(t, budget(fields)) =~= p.skip(1));
        lemma_body_exact(s, t, budget(fields));
        crate::text::lemma_utf8_injective(a->String_0, b->String_0);
    } else if p[0] == TAG_BOOL {
        assert(p[1] == p[1]);
    }
}

/// A number's bits as a float.
spec fn number_bits(m: DocModel) -> u64 {
    match m {
        DocModel::Int(n) => float_of_int(n),
        DocModel::Float(f) => f,
        _ => 0,
    }
}

proof fn lemma_number_exact(x: u64, y: u64)
    requires
        !nan(x),
        !nan(y),
        number_key(x) == number_key(y),
        exact_part(number_key(x)->Some_0, 1),
    ensures
        rank(x) == rank(y),
        magnitude(x) < 0x4340_0000_0000_0000,
{
    let p = number_key(x)->Some_0;
    lemma_sortable(x);
    lemma_sortable(y);
    lemma_pow256_values();
    lemma_be_roundtrip(sortable(x), 8);
    lemma_be_roundtrip(sortable(y), 8);
    assert(p.subrange(1, 9) =~= be_bytes(sortable(x), 8));
    assert(number_key(y)->Some_0.subrange(1, 9) =~= be_bytes(sortable(y), 8));
    assert(sortable(x) == sortable(y));
}

proof fn lemma_part_len(m: DocModel, fields: int)
    requires
        1 <= fields <= MAX_COMPOUND_FIELDS,
    ensures
        compound_part(m, fields).len() <= budget(fields) + 3,
{
    lemma_budget(fields);
    lemma_part_shape(m, fields);
    if m is String {
        lemma_escaped_len(encode_utf8(m->String_0), budget(fields));
    }
}

proof fn lemma_joined_len(values: Seq<DocModel>, fields: int)
    requires
        1 <= fields <= MAX_COMPOUND_FIELDS,
    ensures
        joined_parts(values, fields).len() <= (budget(fields) + 3) * values.len(),
    decreases values.len(),
{
    if values.len() > 0 {
        lemma_part_len(values[0], fields);
        lemma_joined_len(values.skip(1), fields);
        let n = values.len() as int;
        let b = budget(fields) + 3;
        assert(b * n == b * (n - 1) + b) by (nonlinear_arith);
    }
}

/// Every key fits the B-tree: the values and an id within `MAX_KEY_LEN`.
pub proof fn keys_fit(values: Seq<DocModel>, id: Seq<u8>)
    requires
        1 <= values.len() <= MAX_COMPOUND_FIELDS,
        id.len() == 16,
    ensures
        (values_key(values) + id).len() <= MAX_KEY_LEN,
{
    let n = values.len() as int;
    lemma_joined_len(values, n);
    lemma_budget(n);
}

/// A single-field key is the compound key of its one value.
pub proof fn lemma_single_value(m: DocModel)
    requires
        value_key(m, 1) is Some,
    ensures
        value_key(m, 1) == Some(values_key(seq![m])),
{
    let one = seq![m];
    assert(one.skip(1).len() == 0);
    assert(joined_parts(one.skip(1), 1) =~= seq![]);
    assert(values_key(one) =~= compound_part(m, 1));
}

/// A key takes apart into the values and the id it was made from.
pub proof fn key_takes_apart(part: Seq<u8>, id: Seq<u8>)
    requires
        id.len() == 16,
    ensures
        key_value(part + id) == part,
        key_id(part + id) == id,
{
    assert(key_value(part + id) =~= part);
    assert(key_id(part + id) =~= id);
}

proof fn lemma_string_end_of_body(bytes: Seq<u8>, room: int, front: Seq<u8>, rest: Seq<u8>)
    requires
        front.len() >= 1,
    ensures
        string_end(front + string_body(bytes, room) + rest, front.len() as int) == Some(
            (front.len() + string_body(bytes, room).len()) as int,
        ),
    decreases bytes.len(),
{
    let body = string_body(bytes, room);
    let all = front + body + rest;
    let at = front.len() as int;
    if bytes.len() == 0 || escaped_width(bytes[0]) > room {
        assert(body =~= seq![0u8, 0u8]);
        assert(all[at] == 0 && all[at + 1] == 0);
    } else {
        lemma_body_step(bytes, room);
        let w = escaped_width(bytes[0]);
        let more = string_body(bytes.skip(1), room - w);
        let next = front + escaped_byte(bytes[0]);
        assert(all =~= next + more + rest);
        lemma_string_end_of_body(bytes.skip(1), room - w, next, rest);
        assert(all[at] == bytes[0]);
        if bytes[0] == 0 {
            assert(all[at + 1] == 0xFF);
        }
    }
}

/// The first part of a value part is the first value's encoding.
proof fn lemma_first_part(m: DocModel, fields: int, rest: Seq<u8>)
    ensures
        first_part_len(compound_part(m, fields) + rest) == compound_part(m, fields).len(),
{
    let p = compound_part(m, fields);
    let all = p + rest;
    lemma_part_shape(m, fields);
    assert(all[0] == p[0]);
    if p[0] == TAG_STRING {
        let s = encode_utf8(m->String_0);
        lemma_string_end_of_body(s, budget(fields), seq![TAG_STRING], rest);
    }
}

/// A compound key splits back into its values' encodings.
pub proof fn compound_keys_split_back(values: Seq<DocModel>, fields: int)
    ensures
        key_parts(joined_parts(values, fields)) == Seq::new(
            values.len(),
            |i: int| compound_part(values[i], fields),
        ),
    decreases values.len(),
{
    let expected = Seq::new(values.len(), |i: int| compound_part(values[i], fields));
    if values.len() == 0 {
        assert(expected =~= seq![]);
    } else {
        let all = joined_parts(values, fields);
        let p = compound_part(values[0], fields);
        let rest = joined_parts(values.skip(1), fields);
        lemma_part_shape(values[0], fields);
        lemma_first_part(values[0], fields, rest);
        compound_keys_split_back(values.skip(1), fields);
        assert(all.take(p.len() as int) =~= p);
        assert(all.skip(p.len() as int) =~= rest);
        assert(key_parts(all) =~= expected);
    }
}

/// The parts of any value part, damaged or not, cover its bytes.
pub proof fn parts_cover_the_bytes(bytes: Seq<u8>)
    ensures
        key_parts(bytes).flatten() == bytes,
    decreases bytes.len(),
{
    if bytes.len() == 0 {
        assert(key_parts(bytes) =~= Seq::<Seq<u8>>::empty());
        assert(key_parts(bytes).flatten() =~= bytes);
    } else {
        lemma_string_end(bytes, 1);
        let len = first_part_len(bytes);
        parts_cover_the_bytes(bytes.skip(len));
        let whole = key_parts(bytes);
        assert(whole[0] == bytes.take(len));
        assert(whole.drop_first() =~= key_parts(bytes.skip(len)));
        assert(bytes.take(len) + bytes.skip(len) =~= bytes);
    }
}

/// Keys sort by their values first, whatever their ids: by the first value
/// whose encodings differ.
pub proof fn keys_sort_field_by_field(
    a: Seq<DocModel>,
    b: Seq<DocModel>,
    at: int,
    fields: int,
    x: Seq<u8>,
    y: Seq<u8>,
)
    requires
        0 <= at < a.len(),
        at < b.len(),
        forall|i: int|
            0 <= i < at ==> compound_part(#[trigger] a[i], fields) == compound_part(b[i], fields),
        bytes_lt(compound_part(a[at], fields), compound_part(b[at], fields)),
    ensures
        bytes_lt(joined_parts(a, fields) + x, joined_parts(b, fields) + y),
    decreases at,
{
    let p = compound_part(a[0], fields);
    let q = compound_part(b[0], fields);
    let r = joined_parts(a.skip(1), fields);
    let t = joined_parts(b.skip(1), fields);
    assert(joined_parts(a, fields) + x =~= p + (r + x));
    assert(joined_parts(b, fields) + y =~= q + (t + y));
    if at == 0 {
        parts_are_prefix_free(a[0], b[0], fields);
        lemma_lt_asymmetric(p, q);
        lemma_lt_extends(p, q, r + x, t + y);
    } else {
        assert(compound_part(a[0], fields) == compound_part(b[0], fields));
        assert forall|i: int| 0 <= i < at - 1 implies compound_part(
            #[trigger] a.skip(1)[i],
            fields,
        ) == compound_part(b.skip(1)[i], fields) by {
            assert(a.skip(1)[i] == a[i + 1]);
        }
        keys_sort_field_by_field(a.skip(1), b.skip(1), at - 1, fields, x, y);
        lemma_lt_common_front(p, r + x, t + y);
    }
}

} // verus!

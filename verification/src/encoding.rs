//! A document as bytes: one type tag, then a payload whose shape depends on
//! the tag. Scalars are fixed-width, strings and binaries carry a length,
//! arrays and objects a count followed by their encoded elements.

use crate::bytes::{from_le, le_bytes, lemma_le_roundtrip, lemma_pow256_values, put_le};
use crate::decode::{corrupt, take, take_u32, take_u64, take_u8};
use crate::document::{
    depth_within, distinct_keys, lemma_array_view, lemma_entry_position, lemma_position_is,
    lemma_with_entry_distinct, models, valid, with_entry, DocId, DocModel, Document, Fields,
    MAX_NESTING,
};
use crate::error::{ErrorKind, IoError, IoResult};
use crate::text::{decimal_text, join, utf8_text};
use vstd::prelude::*;
use vstd::slice::slice_to_vec;
use vstd::utf8::{
    decode_utf8, encode_utf8, encode_utf8_decode_utf8, encode_utf8_valid_utf8, valid_utf8,
};

verus! {

/// The 64 bits of `n` in two's complement.
pub open spec fn int_bits(n: i64) -> nat {
    if n >= 0 {
        n as nat
    } else {
        (n + 0x1_0000_0000_0000_0000) as nat
    }
}

/// The number whose 64 bits in two's complement are `bits`.
pub open spec fn int_of_bits(bits: nat) -> i64 {
    if bits < 0x8000_0000_0000_0000 {
        bits as i64
    } else {
        (bits - 0x1_0000_0000_0000_0000) as i64
    }
}

/// The 64 bits of `n`.
pub fn int_to_bits(n: i64) -> (bits: u64)
    ensures
        bits == int_bits(n),
{
    if n >= 0 {
        n as u64
    } else {
        ((n + i64::MAX) + 1) as u64 + 0x8000_0000_0000_0000
    }
}

/// The number with the 64 bits `bits`.
pub fn int_from_bits(bits: u64) -> (n: i64)
    ensures
        n == int_of_bits(bits as nat),
{
    if bits < 0x8000_0000_0000_0000 {
        bits as i64
    } else {
        ((bits - 0x8000_0000_0000_0000) as i64 - i64::MAX) - 1
    }
}

/// `bytes` behind their length.
pub open spec fn len_prefixed(bytes: Seq<u8>) -> Seq<u8> {
    le_bytes(bytes.len(), 4) + bytes
}

/// A document's bytes.
pub open spec fn encoded(m: DocModel) -> Seq<u8>
    decreases m,
{
    match m {
        DocModel::Null => seq![0u8],
        DocModel::Bool(b) => seq![
            1u8,
            if b {
                1u8
            } else {
                0u8
            },
        ],
        DocModel::Int(n) => seq![2u8] + le_bytes(int_bits(n), 8),
        DocModel::Float(f) => seq![3u8] + le_bytes(f as nat, 8),
        DocModel::String(s) => seq![4u8] + len_prefixed(encode_utf8(s)),
        DocModel::Binary(b) => seq![5u8] + len_prefixed(b),
        DocModel::Array(items) => seq![6u8] + le_bytes(items.len(), 4) + encoded_items(items),
        DocModel::Object(entries) => seq![7u8] + le_bytes(entries.len(), 4) + encoded_entries(
            entries,
        ),
        DocModel::Id(id) => seq![8u8] + id,
    }
}

/// The bytes of an array's elements.
pub open spec fn encoded_items(items: Seq<DocModel>) -> Seq<u8>
    decreases items,
{
    if items.len() == 0 {
        seq![]
    } else {
        encoded(items[0]) + encoded_items(items.skip(1))
    }
}

/// The bytes of an object's fields: each name behind its length, and its
/// value.
pub open spec fn encoded_entries(entries: Seq<(Seq<char>, DocModel)>) -> Seq<u8>
    decreases entries,
{
    if entries.len() == 0 {
        seq![]
    } else {
        len_prefixed(encode_utf8(entries[0].0)) + encoded(entries[0].1) + encoded_entries(
            entries.skip(1),
        )
    }
}

/// The bytes behind a length, and what follows them.
pub open spec fn unprefixed(bytes: Seq<u8>) -> Option<(Seq<u8>, Seq<u8>)> {
    if bytes.len() < 4 || bytes.len() - 4 < from_le(bytes.take(4)) {
        None
    } else {
        let n = from_le(bytes.take(4)) as int;
        Some((bytes.skip(4).take(n), bytes.skip(4).skip(n)))
    }
}

/// The text behind a length, and what follows it.
pub open spec fn decoded_text(bytes: Seq<u8>) -> Option<(Seq<char>, Seq<u8>)> {
    match unprefixed(bytes) {
        Some((raw, rest)) => if valid_utf8(raw) {
            Some((decode_utf8(raw), rest))
        } else {
            None
        },
        None => None,
    }
}

/// The document at the front of `bytes`, and what follows it. `levels` is
/// how many more objects or arrays may open.
pub open spec fn decoded(bytes: Seq<u8>, levels: nat) -> Option<(DocModel, Seq<u8>)>
    decreases levels, 0nat, 0nat,
{
    if bytes.len() == 0 {
        None
    } else {
        let tag = bytes[0];
        let rest = bytes.skip(1);
        if tag == 0 {
            Some((DocModel::Null, rest))
        } else if tag == 1 {
            if rest.len() < 1 {
                None
            } else {
                Some((DocModel::Bool(rest[0] != 0), rest.skip(1)))
            }
        } else if tag == 2 {
            if rest.len() < 8 {
                None
            } else {
                Some((DocModel::Int(int_of_bits(from_le(rest.take(8)))), rest.skip(8)))
            }
        } else if tag == 3 {
            if rest.len() < 8 {
                None
            } else {
                Some((DocModel::Float(from_le(rest.take(8)) as u64), rest.skip(8)))
            }
        } else if tag == 4 {
            match decoded_text(rest) {
                Some((s, more)) => Some((DocModel::String(s), more)),
                None => None,
            }
        } else if tag == 5 {
            match unprefixed(rest) {
                Some((b, more)) => Some((DocModel::Binary(b), more)),
                None => None,
            }
        } else if tag == 6 {
            if levels == 0 || rest.len() < 4 {
                None
            } else {
                match decoded_items(
                    rest.skip(4),
                    from_le(rest.take(4)),
                    (levels - 1) as nat,
                    seq![],
                ) {
                    Some((items, more)) => Some((DocModel::Array(items), more)),
                    None => None,
                }
            }
        } else if tag == 7 {
            if levels == 0 || rest.len() < 4 {
                None
            } else {
                match decoded_entries(
                    rest.skip(4),
                    from_le(rest.take(4)),
                    (levels - 1) as nat,
                    seq![],
                ) {
                    Some((entries, more)) => Some((DocModel::Object(entries), more)),
                    None => None,
                }
            }
        } else if tag == 8 {
            if rest.len() < 16 {
                None
            } else {
                Some((DocModel::Id(rest.take(16)), rest.skip(16)))
            }
        } else {
            None
        }
    }
}

/// `before` and `count` more documents, and what follows them.
pub open spec fn decoded_items(
    bytes: Seq<u8>,
    count: nat,
    levels: nat,
    before: Seq<DocModel>,
) -> Option<(Seq<DocModel>, Seq<u8>)>
    decreases levels, 1nat, count,
{
    if count == 0 {
        Some((before, bytes))
    } else {
        match decoded(bytes, levels) {
            Some((m, rest)) => decoded_items(rest, (count - 1) as nat, levels, before.push(m)),
            None => None,
        }
    }
}

/// `before` and `count` more fields, and what follows them. A name that
/// comes again replaces the value in its place.
pub open spec fn decoded_entries(
    bytes: Seq<u8>,
    count: nat,
    levels: nat,
    before: Seq<(Seq<char>, DocModel)>,
) -> Option<(Seq<(Seq<char>, DocModel)>, Seq<u8>)>
    decreases levels, 1nat, count,
{
    if count == 0 {
        Some((before, bytes))
    } else {
        match decoded_text(bytes) {
            Some((key, more)) => match decoded(more, levels) {
                Some((m, rest)) => decoded_entries(
                    rest,
                    (count - 1) as nat,
                    levels,
                    with_entry(before, key, m),
                ),
                None => None,
            },
            None => None,
        }
    }
}

// ---------------------------------------------------------------------
// Laws.

proof fn lemma_int_bits(n: i64)
    ensures
        int_bits(n) < 0x1_0000_0000_0000_0000,
        int_of_bits(int_bits(n)) == n,
{
}

pub proof fn lemma_encoded_nonempty(m: DocModel)
    ensures
        encoded(m).len() >= 1,
{
}

proof fn lemma_items_len(items: Seq<DocModel>)
    ensures
        encoded_items(items).len() >= items.len(),
        items.len() > 0 ==> encoded(items[0]).len() <= encoded_items(items).len()
            && encoded_items(items.skip(1)).len() <= encoded_items(items).len(),
    decreases items.len(),
{
    if items.len() > 0 {
        lemma_encoded_nonempty(items[0]);
        lemma_items_len(items.skip(1));
    }
}

proof fn lemma_entries_len(entries: Seq<(Seq<char>, DocModel)>)
    ensures
        encoded_entries(entries).len() >= entries.len(),
    decreases entries.len(),
{
    if entries.len() > 0 {
        lemma_encoded_nonempty(entries[0].1);
        lemma_entries_len(entries.skip(1));
    }
}

proof fn lemma_unprefixed(bytes: Seq<u8>, rest: Seq<u8>)
    requires
        bytes.len() <= u32::MAX,
    ensures
        unprefixed(len_prefixed(bytes) + rest) == Some((bytes, rest)),
{
    lemma_pow256_values();
    lemma_le_roundtrip(bytes.len(), 4);
    let all = len_prefixed(bytes) + rest;
    assert(all.take(4) =~= le_bytes(bytes.len(), 4));
    assert(all.skip(4).take(bytes.len() as int) =~= bytes);
    assert(all.skip(4).skip(bytes.len() as int) =~= rest);
}

proof fn lemma_text_decoded(s: Seq<char>, rest: Seq<u8>)
    requires
        encode_utf8(s).len() <= u32::MAX,
    ensures
        decoded_text(len_prefixed(encode_utf8(s)) + rest) == Some((s, rest)),
{
    lemma_unprefixed(encode_utf8(s), rest);
    encode_utf8_valid_utf8(s);
    encode_utf8_decode_utf8(s);
}

/// A document reads back from its bytes, whatever follows them: one that is
/// valid, nests no deeper than `levels` and whose bytes a `u32` can count.
pub proof fn encoded_document_reads_back(m: DocModel, levels: nat, rest: Seq<u8>)
    requires
        valid(m),
        depth_within(m, levels as int),
        encoded(m).len() <= u32::MAX,
    ensures
        decoded(encoded(m) + rest, levels) == Some((m, rest)),
    decreases m,
{
    lemma_pow256_values();
    let all = encoded(m) + rest;
    let after = all.skip(1);
    match m {
        DocModel::Null => {
            assert(after =~= rest);
        },
        DocModel::Bool(b) => {
            assert(after.skip(1) =~= rest);
        },
        DocModel::Int(n) => {
            lemma_int_bits(n);
            lemma_le_roundtrip(int_bits(n), 8);
            assert(after.take(8) =~= le_bytes(int_bits(n), 8));
            assert(after.skip(8) =~= rest);
        },
        DocModel::Float(f) => {
            lemma_le_roundtrip(f as nat, 8);
            assert(after.take(8) =~= le_bytes(f as nat, 8));
            assert(after.skip(8) =~= rest);
        },
        DocModel::String(s) => {
            assert(after =~= len_prefixed(encode_utf8(s)) + rest);
            lemma_text_decoded(s, rest);
        },
        DocModel::Binary(b) => {
            assert(after =~= len_prefixed(b) + rest);
            lemma_unprefixed(b, rest);
        },
        DocModel::Array(items) => {
            lemma_items_len(items);
            lemma_le_roundtrip(items.len(), 4);
            assert(after.take(4) =~= le_bytes(items.len(), 4));
            assert(after.skip(4) =~= encoded_items(items) + rest);
            lemma_items_read_back(items, (levels - 1) as nat, seq![], rest);
            assert(Seq::<DocModel>::empty() + items =~= items);
        },
        DocModel::Object(entries) => {
            lemma_entries_len(entries);
            lemma_le_roundtrip(entries.len(), 4);
            assert(after.take(4) =~= le_bytes(entries.len(), 4));
            assert(after.skip(4) =~= encoded_entries(entries) + rest);
            let none: Seq<(Seq<char>, DocModel)> = seq![];
            assert(none + entries =~= entries);
            lemma_entries_read_back(entries, (levels - 1) as nat, none, rest);
        },
        DocModel::Id(id) => {
            assert(after.take(16) =~= id);
            assert(after.skip(16) =~= rest);
        },
    }
}

proof fn lemma_items_read_back(
    items: Seq<DocModel>,
    levels: nat,
    before: Seq<DocModel>,
    rest: Seq<u8>,
)
    requires
        forall|i: int| 0 <= i < items.len() ==> valid(#[trigger] items[i]),
        forall|i: int| 0 <= i < items.len() ==> depth_within(#[trigger] items[i], levels as int),
        encoded_items(items).len() <= u32::MAX,
    ensures
        decoded_items(encoded_items(items) + rest, items.len(), levels, before) == Some(
            (before + items, rest),
        ),
    decreases items,
{
    if items.len() == 0 {
        assert(encoded_items(items) + rest =~= rest);
        assert(before + items =~= before);
    } else {
        let others = items.skip(1);
        lemma_items_len(items);
        let more = encoded_items(others) + rest;
        assert(encoded_items(items) + rest =~= encoded(items[0]) + more);
        encoded_document_reads_back(items[0], levels, more);
        lemma_items_read_back(others, levels, before.push(items[0]), rest);
        assert(before.push(items[0]) + others =~= before + items);
    }
}

proof fn lemma_entries_read_back(
    entries: Seq<(Seq<char>, DocModel)>,
    levels: nat,
    before: Seq<(Seq<char>, DocModel)>,
    rest: Seq<u8>,
)
    requires
        distinct_keys(before + entries),
        forall|i: int| 0 <= i < entries.len() ==> valid(#[trigger] entries[i].1),
        forall|i: int|
            0 <= i < entries.len() ==> depth_within(#[trigger] entries[i].1, levels as int),
        encoded_entries(entries).len() <= u32::MAX,
    ensures
        decoded_entries(encoded_entries(entries) + rest, entries.len(), levels, before) == Some(
            (before + entries, rest),
        ),
    decreases entries,
{
    if entries.len() == 0 {
        assert(encoded_entries(entries) + rest =~= rest);
        assert(before + entries =~= before);
    } else {
        let (key, value) = entries[0];
        let others = entries.skip(1);
        let more = encoded_entries(others) + rest;
        assert(encoded_entries(entries) + rest =~= len_prefixed(encode_utf8(key)) + (encoded(value)
            + more));
        lemma_text_decoded(key, encoded(value) + more);
        encoded_document_reads_back(value, levels, more);
        let next = before.push((key, value));
        assert forall|j: int| 0 <= j < before.len() implies (#[trigger] before[j]).0 != key by {
            assert((before + entries)[j] == before[j]);
            assert((before + entries)[before.len() as int] == entries[0]);
        }
        lemma_position_is(before, key, before.len() as int);
        assert(with_entry(before, key, value) =~= next);
        assert(next + others =~= before + entries);
        lemma_entries_read_back(others, levels, next, rest);
    }
}

proof fn lemma_unprefixed_extends(bytes: Seq<u8>, more: Seq<u8>)
    requires
        unprefixed(bytes) is Some,
    ensures
        unprefixed(bytes + more) == Some(
            (unprefixed(bytes)->Some_0.0, unprefixed(bytes)->Some_0.1 + more),
        ),
{
    let all = bytes + more;
    let n = from_le(bytes.take(4)) as int;
    assert(all.take(4) =~= bytes.take(4));
    assert(all.skip(4).take(n) =~= bytes.skip(4).take(n));
    assert(all.skip(4).skip(n) =~= bytes.skip(4).skip(n) + more);
}

/// What is decoded does not depend on what follows it.
pub proof fn decoding_ignores_what_follows(bytes: Seq<u8>, levels: nat, more: Seq<u8>)
    requires
        decoded(bytes, levels) is Some,
    ensures
        decoded(bytes + more, levels) == Some(
            (decoded(bytes, levels)->Some_0.0, decoded(bytes, levels)->Some_0.1 + more),
        ),
    decreases levels, 0nat, 0nat,
{
    let all = bytes + more;
    let rest = bytes.skip(1);
    let after = all.skip(1);
    assert(after =~= rest + more);
    let tag = bytes[0];
    if tag == 0 {
    } else if tag == 1 {
        assert(after.skip(1) =~= rest.skip(1) + more);
    } else if tag == 2 || tag == 3 {
        assert(after.take(8) =~= rest.take(8));
        assert(after.skip(8) =~= rest.skip(8) + more);
    } else if tag == 4 || tag == 5 {
        lemma_unprefixed_extends(rest, more);
    } else if tag == 6 {
        assert(after.take(4) =~= rest.take(4));
        assert(after.skip(4) =~= rest.skip(4) + more);
        lemma_items_ignore(rest.skip(4), from_le(rest.take(4)), (levels - 1) as nat, seq![], more);
    } else if tag == 7 {
        assert(after.take(4) =~= rest.take(4));
        assert(after.skip(4) =~= rest.skip(4) + more);
        lemma_entries_ignore(
            rest.skip(4),
            from_le(rest.take(4)),
            (levels - 1) as nat,
            seq![],
            more,
        );
    } else {
        assert(after.take(16) =~= rest.take(16));
        assert(after.skip(16) =~= rest.skip(16) + more);
    }
}

proof fn lemma_items_ignore(
    bytes: Seq<u8>,
    count: nat,
    levels: nat,
    before: Seq<DocModel>,
    more: Seq<u8>,
)
    requires
        decoded_items(bytes, count, levels, before) is Some,
    ensures
        decoded_items(bytes + more, count, levels, before) == Some(
            (
                decoded_items(bytes, count, levels, before)->Some_0.0,
                decoded_items(bytes, count, levels, before)->Some_0.1 + more,
            ),
        ),
    decreases levels, 1nat, count,
{
    if count > 0 {
        decoding_ignores_what_follows(bytes, levels, more);
        let (m, rest) = decoded(bytes, levels)->Some_0;
        lemma_items_ignore(rest, (count - 1) as nat, levels, before.push(m), more);
    }
}

proof fn lemma_entries_ignore(
    bytes: Seq<u8>,
    count: nat,
    levels: nat,
    before: Seq<(Seq<char>, DocModel)>,
    more: Seq<u8>,
)
    requires
        decoded_entries(bytes, count, levels, before) is Some,
    ensures
        decoded_entries(bytes + more, count, levels, before) == Some(
            (
                decoded_entries(bytes, count, levels, before)->Some_0.0,
                decoded_entries(bytes, count, levels, before)->Some_0.1 + more,
            ),
        ),
    decreases levels, 1nat, count,
{
    if count > 0 {
        lemma_unprefixed_extends(bytes, more);
        let (key, value) = decoded_text(bytes)->Some_0;
        decoding_ignores_what_follows(value, levels, more);
        let (m, rest) = decoded(value, levels)->Some_0;
        lemma_entries_ignore(rest, (count - 1) as nat, levels, with_entry(before, key, m), more);
    }
}

/// What decodes decodes the same where more may open.
proof fn lemma_more_levels(bytes: Seq<u8>, levels: nat, more: nat)
    requires
        decoded(bytes, levels) is Some,
        levels <= more,
    ensures
        decoded(bytes, more) == decoded(bytes, levels),
    decreases levels, 0nat, 0nat,
{
    let rest = bytes.skip(1);
    if bytes[0] == 6 {
        lemma_items_more_levels(
            rest.skip(4),
            from_le(rest.take(4)),
            (levels - 1) as nat,
            (more - 1) as nat,
            seq![],
        );
    } else if bytes[0] == 7 {
        lemma_entries_more_levels(
            rest.skip(4),
            from_le(rest.take(4)),
            (levels - 1) as nat,
            (more - 1) as nat,
            seq![],
        );
    }
}

proof fn lemma_items_more_levels(
    bytes: Seq<u8>,
    count: nat,
    levels: nat,
    more: nat,
    before: Seq<DocModel>,
)
    requires
        decoded_items(bytes, count, levels, before) is Some,
        levels <= more,
    ensures
        decoded_items(bytes, count, more, before) == decoded_items(bytes, count, levels, before),
    decreases levels, 1nat, count,
{
    if count > 0 {
        lemma_more_levels(bytes, levels, more);
        let (m, rest) = decoded(bytes, levels)->Some_0;
        lemma_items_more_levels(rest, (count - 1) as nat, levels, more, before.push(m));
    }
}

proof fn lemma_entries_more_levels(
    bytes: Seq<u8>,
    count: nat,
    levels: nat,
    more: nat,
    before: Seq<(Seq<char>, DocModel)>,
)
    requires
        decoded_entries(bytes, count, levels, before) is Some,
        levels <= more,
    ensures
        decoded_entries(bytes, count, more, before) == decoded_entries(
            bytes,
            count,
            levels,
            before,
        ),
    decreases levels, 1nat, count,
{
    if count > 0 {
        let (key, value) = decoded_text(bytes)->Some_0;
        lemma_more_levels(value, levels, more);
        let (m, rest) = decoded(value, levels)->Some_0;
        lemma_entries_more_levels(
            rest,
            (count - 1) as nat,
            levels,
            more,
            with_entry(before, key, m),
        );
    }
}

/// An element's bytes are among those of the elements.
proof fn lemma_item_len(items: Seq<DocModel>, i: int)
    requires
        0 <= i < items.len(),
    ensures
        encoded(items[i]).len() <= encoded_items(items).len(),
    decreases items.len(),
{
    if i > 0 {
        lemma_item_len(items.skip(1), i - 1);
        assert(items.skip(1)[i - 1] == items[i]);
    }
}

/// A value's bytes are among those of the fields.
proof fn lemma_entry_len(entries: Seq<(Seq<char>, DocModel)>, i: int)
    requires
        0 <= i < entries.len(),
    ensures
        encoded(entries[i].1).len() <= encoded_entries(entries).len(),
    decreases entries.len(),
{
    if i > 0 {
        lemma_entry_len(entries.skip(1), i - 1);
        assert(entries.skip(1)[i - 1] == entries[i]);
    }
}

/// A document nests less deep than it has bytes.
proof fn lemma_depth_below_len(m: DocModel, levels: int)
    requires
        encoded(m).len() <= levels,
    ensures
        depth_within(m, levels),
    decreases m,
{
    match m {
        DocModel::Array(items) => {
            assert forall|i: int| 0 <= i < items.len() implies depth_within(
                #[trigger] items[i],
                levels - 1,
            ) by {
                lemma_item_len(items, i);
                lemma_depth_below_len(items[i], levels - 1);
            }
        },
        DocModel::Object(entries) => {
            assert forall|i: int| 0 <= i < entries.len() implies depth_within(
                #[trigger] entries[i].1,
                levels - 1,
            ) by {
                lemma_entry_len(entries, i);
                lemma_depth_below_len(entries[i].1, levels - 1);
            }
        },
        _ => {},
    }
}

/// A document cut short anywhere does not decode, however deep it nests and
/// however many levels may open.
pub proof fn truncated_document_is_an_error(m: DocModel, levels: nat, len: int)
    requires
        valid(m),
        encoded(m).len() <= u32::MAX,
        0 <= len < encoded(m).len(),
    ensures
        decoded(encoded(m).take(len), levels) is None,
{
    let cut = encoded(m).take(len);
    let more = encoded(m).skip(len);
    let deep = levels + encoded(m).len();
    assert(cut + more =~= encoded(m));
    if decoded(cut, levels) is Some {
        lemma_more_levels(cut, levels, deep);
        lemma_depth_below_len(m, deep as int);
        decoding_ignores_what_follows(cut, deep, more);
        encoded_document_reads_back(m, deep, seq![]);
        assert(encoded(m) + Seq::<u8>::empty() =~= encoded(m));
        let left = decoded(cut, deep)->Some_0.1 + more;
        assert(left.len() == 0);
    }
}

/// What decodes is a valid document.
pub proof fn decoded_is_valid(bytes: Seq<u8>, levels: nat)
    requires
        decoded(bytes, levels) is Some,
    ensures
        valid(decoded(bytes, levels)->Some_0.0),
        depth_within(decoded(bytes, levels)->Some_0.0, levels as int),
    decreases levels, 0nat, 0nat,
{
    let rest = bytes.skip(1);
    if bytes[0] == 6 {
        lemma_items_valid(rest.skip(4), from_le(rest.take(4)), (levels - 1) as nat, seq![]);
    } else if bytes[0] == 7 {
        lemma_entries_valid(rest.skip(4), from_le(rest.take(4)), (levels - 1) as nat, seq![]);
    }
}

proof fn lemma_items_valid(bytes: Seq<u8>, count: nat, levels: nat, before: Seq<DocModel>)
    requires
        decoded_items(bytes, count, levels, before) is Some,
        forall|i: int| 0 <= i < before.len() ==> valid(#[trigger] before[i]),
        forall|i: int| 0 <= i < before.len() ==> depth_within(#[trigger] before[i], levels as int),
    ensures
        ({
            let items = decoded_items(bytes, count, levels, before)->Some_0.0;
            &&& forall|i: int| 0 <= i < items.len() ==> valid(#[trigger] items[i])
            &&& forall|i: int|
                0 <= i < items.len() ==> depth_within(#[trigger] items[i], levels as int)
        }),
    decreases levels, 1nat, count,
{
    if count > 0 {
        decoded_is_valid(bytes, levels);
        let (m, rest) = decoded(bytes, levels)->Some_0;
        lemma_items_valid(rest, (count - 1) as nat, levels, before.push(m));
    }
}

proof fn lemma_entries_valid(
    bytes: Seq<u8>,
    count: nat,
    levels: nat,
    before: Seq<(Seq<char>, DocModel)>,
)
    requires
        decoded_entries(bytes, count, levels, before) is Some,
        distinct_keys(before),
        forall|i: int| 0 <= i < before.len() ==> valid(#[trigger] before[i].1),
        forall|i: int|
            0 <= i < before.len() ==> depth_within(#[trigger] before[i].1, levels as int),
    ensures
        ({
            let entries = decoded_entries(bytes, count, levels, before)->Some_0.0;
            &&& distinct_keys(entries)
            &&& forall|i: int| 0 <= i < entries.len() ==> valid(#[trigger] entries[i].1)
            &&& forall|i: int|
                0 <= i < entries.len() ==> depth_within(#[trigger] entries[i].1, levels as int)
        }),
    decreases levels, 1nat, count,
{
    if count > 0 {
        let (key, value) = decoded_text(bytes)->Some_0;
        decoded_is_valid(value, levels);
        let (m, rest) = decoded(value, levels)->Some_0;
        let next = with_entry(before, key, m);
        lemma_entry_position(before, key);
        lemma_with_entry_distinct(before, key, m);
        assert forall|i: int| 0 <= i < next.len() implies valid(#[trigger] next[i].1)
            && depth_within(next[i].1, levels as int) by {
            if i < before.len() {
                assert(valid(before[i].1));
            }
        }
        lemma_entries_valid(rest, (count - 1) as nat, levels, next);
    }
}

// ---------------------------------------------------------------------
// The code.

/// Encodes a document into bytes.
pub fn encode_document(doc: &Document) -> (bytes: Vec<u8>)
    ensures
        bytes@ == encoded(doc@),
{
    let mut buffer: Vec<u8> = Vec::new();
    write_document(doc, &mut buffer);
    assert(Seq::<u8>::empty() + encoded(doc@) =~= encoded(doc@));
    buffer
}

fn write_len_prefixed(bytes: &[u8], buffer: &mut Vec<u8>)
    ensures
        final(buffer)@ == old(buffer)@ + len_prefixed(bytes@),
{
    put_le(buffer, bytes.len() as u64, 4);
    buffer.extend_from_slice(bytes);
    assert(buffer@ =~= old(buffer)@ + len_prefixed(bytes@));
}

/// Appends a document's bytes.
fn write_document(doc: &Document, buffer: &mut Vec<u8>)
    ensures
        final(buffer)@ == old(buffer)@ + encoded(doc@),
    decreases doc@,
{
    let ghost start = buffer@;
    match doc {
        Document::Null => {
            buffer.push(0);
        },
        Document::Bool(value) => {
            buffer.push(1);
            buffer.push(
                if *value {
                    1
                } else {
                    0
                },
            );
        },
        Document::Int(value) => {
            buffer.push(2);
            put_le(buffer, int_to_bits(*value), 8);
        },
        Document::Float(bits) => {
            buffer.push(3);
            put_le(buffer, *bits, 8);
        },
        Document::String(value) => {
            buffer.push(4);
            write_len_prefixed(value.as_str().as_bytes(), buffer);
        },
        Document::Binary(value) => {
            buffer.push(5);
            write_len_prefixed(value.as_slice(), buffer);
        },
        Document::Array(items) => {
            proof {
                lemma_array_view(*items);
            }
            let ghost all = models(items@);
            let n: usize = items.len();
            buffer.push(6);
            put_le(buffer, n as u64, 4);
            assert(all.skip(0) =~= all);
            assert(buffer@ + encoded_items(all.skip(0)) =~= start + encoded(doc@));
            for i in 0..n
                invariant
                    n == items@.len(),
                    all == models(items@),
                    doc@ == DocModel::Array(all),
                    buffer@ + encoded_items(all.skip(i as int)) == start + encoded(doc@),
            {
                let ghost before = buffer@;
                assert(decreases_to!(doc@ => doc@->Array_0[i as int]));
                write_document(&items[i], buffer);
                proof {
                    let left = all.skip(i as int);
                    assert(left.skip(1) =~= all.skip(i + 1));
                    assert(buffer@ + encoded_items(all.skip(i + 1)) =~= before + encoded_items(
                        left,
                    ));
                }
            }
            assert(buffer@ + encoded_items(all.skip(n as int)) =~= buffer@);
        },
        Document::Object(fields) => {
            let ghost all = fields@;
            let n: usize = fields.len();
            buffer.push(7);
            put_le(buffer, n as u64, 4);
            assert(all.skip(0) =~= all);
            assert(buffer@ + encoded_entries(all.skip(0)) =~= start + encoded(doc@));
            for i in 0..n
                invariant
                    n == fields@.len(),
                    all == fields@,
                    doc@ == DocModel::Object(all),
                    buffer@ + encoded_entries(all.skip(i as int)) == start + encoded(doc@),
            {
                let ghost before = buffer@;
                let (key, value) = fields.entry_at(i);
                assert(decreases_to!(doc@ => doc@->Object_0[i as int].1));
                write_len_prefixed(key.as_str().as_bytes(), buffer);
                write_document(value, buffer);
                proof {
                    let left = all.skip(i as int);
                    assert(left.skip(1) =~= all.skip(i + 1));
                    assert(buffer@ + encoded_entries(all.skip(i + 1)) =~= before + encoded_entries(
                        left,
                    ));
                }
            }
            assert(buffer@ + encoded_entries(all.skip(n as int)) =~= buffer@);
        },
        Document::Id(id) => {
            buffer.push(8);
            buffer.extend_from_slice(id.0.as_slice());
        },
    }
    assert(buffer@ =~= start + encoded(doc@));
}

/// Decodes one document from the front of `bytes`, returning it along with
/// whatever bytes follow it. Fails, with `InvalidData`, on an unknown type
/// tag, invalid UTF-8, nesting past the limit, or bytes that run out before
/// the document does.
pub fn decode_document(bytes: &[u8]) -> (r: IoResult<(Document, &[u8])>)
    ensures
        match r {
            Ok((doc, rest)) => decoded(bytes@, MAX_NESTING as nat) == Some((doc@, rest@)),
            Err(e) => decoded(bytes@, MAX_NESTING as nat) is None && e.kind
                == ErrorKind::InvalidData,
        },
{
    let mut rest: &[u8] = bytes;
    match decode_value(&mut rest, MAX_NESTING) {
        Ok(doc) => Ok((doc, rest)),
        Err(e) => Err(e),
    }
}

/// `[u32 length][bytes]`.
fn take_len_prefixed<'a>(bytes: &mut &'a [u8], what: &str) -> (r: IoResult<&'a [u8]>)
    ensures
        match r {
            Ok(raw) => unprefixed(old(bytes)@) == Some((raw@, final(bytes)@)),
            Err(e) => unprefixed(old(bytes)@) is None && e.kind == ErrorKind::InvalidData,
        },
{
    let len: usize = match take_u32(bytes, what) {
        Ok(n) => n as usize,
        Err(e) => return Err(e),
    };
    take(bytes, len, what)
}

fn decode_string(bytes: &mut &[u8], what: &str) -> (r: IoResult<String>)
    ensures
        match r {
            Ok(s) => decoded_text(old(bytes)@) == Some((s@, final(bytes)@)),
            Err(e) => decoded_text(old(bytes)@) is None && e.kind == ErrorKind::InvalidData,
        },
{
    let raw = match take_len_prefixed(bytes, what) {
        Ok(raw) => raw,
        Err(e) => return Err(e),
    };
    match utf8_text(slice_to_vec(raw)) {
        Some(s) => Ok(s),
        None => Err(corrupt(join(&["bad UTF-8 in ", what]).as_str())),
    }
}

/// Decodes a document from the front of `bytes` and moves past it; what
/// `bytes` is after an error is left open.
fn decode_value(bytes: &mut &[u8], levels: usize) -> (r: IoResult<Document>)
    ensures
        match r {
            Ok(doc) => decoded(old(bytes)@, levels as nat) == Some((doc@, final(bytes)@)),
            Err(e) => decoded(old(bytes)@, levels as nat) is None && e.kind
                == ErrorKind::InvalidData,
        },
    decreases levels, 0nat,
{
    let tag: u8 = match take_u8(bytes, "a document's type tag") {
        Ok(tag) => tag,
        Err(e) => return Err(e),
    };
    if tag == 0 {
        Ok(Document::Null)
    } else if tag == 1 {
        match take_u8(bytes, "a bool") {
            Ok(b) => Ok(Document::Bool(b != 0)),
            Err(e) => Err(e),
        }
    } else if tag == 2 {
        match take_u64(bytes, "an int") {
            Ok(n) => Ok(Document::Int(int_from_bits(n))),
            Err(e) => Err(e),
        }
    } else if tag == 3 {
        match take_u64(bytes, "a float") {
            Ok(bits) => Ok(Document::Float(bits)),
            Err(e) => Err(e),
        }
    } else if tag == 4 {
        match decode_string(bytes, "a string") {
            Ok(s) => Ok(Document::String(s)),
            Err(e) => Err(e),
        }
    } else if tag == 5 {
        match take_len_prefixed(bytes, "binary") {
            Ok(raw) => Ok(Document::Binary(slice_to_vec(raw))),
            Err(e) => Err(e),
        }
    } else if tag == 6 || tag == 7 {
        if levels == 0 {
            return Err(too_deep());
        }
        if tag == 6 {
            decode_array(bytes, levels - 1)
        } else {
            decode_object(bytes, levels - 1)
        }
    } else if tag == 8 {
        match take(bytes, 16, "an id") {
            Ok(raw) => Ok(Document::Id(DocId::from_slice(raw))),
            Err(e) => Err(e),
        }
    } else {
        let found = decimal_text(tag as u64);
        Err(corrupt(join(&["unknown document type tag ", found.as_str()]).as_str()))
    }
}

fn too_deep() -> (e: IoError)
    ensures
        e.kind == ErrorKind::InvalidData,
{
    let limit = decimal_text(MAX_NESTING as u64);
    corrupt(join(&["a document nests deeper than ", limit.as_str(), " levels"]).as_str())
}

/// The count and elements of an array.
fn decode_array(bytes: &mut &[u8], levels: usize) -> (r: IoResult<Document>)
    ensures
        match r {
            Ok(doc) => old(bytes)@.len() >= 4 && (decoded_items(
                old(bytes)@.skip(4),
                from_le(old(bytes)@.take(4)),
                levels as nat,
                seq![],
            ) matches Some((items, rest)) && doc@ == DocModel::Array(items) && rest
                == final(bytes)@),
            Err(e) => e.kind == ErrorKind::InvalidData && (old(bytes)@.len() < 4 || decoded_items(
                old(bytes)@.skip(4),
                from_le(old(bytes)@.take(4)),
                levels as nat,
                seq![],
            ) is None),
        },
    decreases levels, 1nat,
{
    let count: usize = match take_u32(bytes, "an array's length") {
        Ok(n) => n as usize,
        Err(e) => return Err(e),
    };
    let mut items: Vec<Document> = Vec::new();
    let ghost whole = decoded_items(bytes@, count as nat, levels as nat, seq![]);
    assert(models(items@) =~= seq![]);
    for i in 0..count
        invariant
            old(bytes)@.len() >= 4,
            whole == decoded_items(
                old(bytes)@.skip(4),
                from_le(old(bytes)@.take(4)),
                levels as nat,
                seq![],
            ),
            whole == decoded_items(bytes@, (count - i) as nat, levels as nat, models(items@)),
    {
        let ghost before = items@;
        match decode_value(bytes, levels) {
            Ok(item) => {
                items.push(item);
                assert(models(items@) =~= models(before).push(item@));
            },
            Err(e) => return Err(e),
        }
    }
    proof {
        lemma_array_view(items);
    }
    Ok(Document::Array(items))
}

/// The count and fields of an object.
fn decode_object(bytes: &mut &[u8], levels: usize) -> (r: IoResult<Document>)
    ensures
        match r {
            Ok(doc) => old(bytes)@.len() >= 4 && (decoded_entries(
                old(bytes)@.skip(4),
                from_le(old(bytes)@.take(4)),
                levels as nat,
                seq![],
            ) matches Some((entries, rest)) && doc@ == DocModel::Object(entries) && rest
                == final(bytes)@),
            Err(e) => e.kind == ErrorKind::InvalidData && (old(bytes)@.len() < 4 || decoded_entries(
                old(bytes)@.skip(4),
                from_le(old(bytes)@.take(4)),
                levels as nat,
                seq![],
            ) is None),
        },
    decreases levels, 1nat,
{
    let count: usize = match take_u32(bytes, "an object's length") {
        Ok(n) => n as usize,
        Err(e) => return Err(e),
    };
    let mut fields = Fields::new();
    let ghost whole = decoded_entries(bytes@, count as nat, levels as nat, seq![]);
    for i in 0..count
        invariant
            old(bytes)@.len() >= 4,
            whole == decoded_entries(
                old(bytes)@.skip(4),
                from_le(old(bytes)@.take(4)),
                levels as nat,
                seq![],
            ),
            whole == decoded_entries(bytes@, (count - i) as nat, levels as nat, fields@),
    {
        let key = match decode_string(bytes, "a key") {
            Ok(key) => key,
            Err(e) => return Err(e),
        };
        match decode_value(bytes, levels) {
            Ok(value) => {
                fields.insert(key, value);
            },
            Err(e) => return Err(e),
        }
    }
    Ok(Document::Object(fields))
}

} // verus!

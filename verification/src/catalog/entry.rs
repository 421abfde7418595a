//! The catalog's cells: what each says of a collection or an index.

use crate::bytes::{from_le, le_bytes, lemma_le_roundtrip, lemma_pow256_values, put_le};
use crate::decode::{corrupt, corrupt_text, take, take_u64, take_u8};
use crate::error::{ErrorKind, IoResult};
use crate::id::hex_char;
use crate::storage::PageId;
use crate::text::{decimal_text, join, joined, str_equal, utf8_text};
use vstd::prelude::*;
use vstd::slice::slice_to_vec;
use vstd::string::StringExecFns;
use vstd::utf8::{
    decode_utf8, encode_utf8, encode_utf8_decode_utf8, encode_utf8_valid_utf8, valid_utf8,
};

verus! {

// The first byte of every catalog cell says what it describes.
pub const KIND_COLLECTION: u8 = 0;

pub const KIND_INDEX: u8 = 1;

/// Laid out like `KIND_INDEX`.
pub const KIND_UNIQUE_INDEX: u8 = 2;

/// Any other index: on several fields, or sparse, with a byte of flags.
pub const KIND_INDEX_WITH_FLAGS: u8 = 3;

pub const FLAG_UNIQUE: u8 = 1;

pub const FLAG_SPARSE: u8 = 2;

/// Where a collection cell's name starts.
pub const COLLECTION_NAME_AT: usize = 17;

/// Where a collection's parts are.
#[derive(Clone, Copy, Debug, PartialEq, Eq, Structural)]
pub struct CollectionMeta {
    /// Root of the primary (`_id`) index.
    pub index_root: PageId,
    /// The data page this collection's next insert tries first; `0` until
    /// its first insert.
    pub current_data_page: PageId,
}

/// A secondary index of a collection: on one field (a dotted path into
/// nested objects, or into array elements) or on several, a compound index.
#[derive(Debug)]
pub struct IndexMeta {
    pub fields: Vec<String>,
    pub root: PageId,
    /// No two documents may have equal non-null values in the field, in all
    /// of a compound index's fields at once.
    pub unique: bool,
    /// Null and missing values get no entry; on several fields, a document
    /// null in all of them.
    pub sparse: bool,
}

/// What an `IndexMeta` says.
#[verifier::ext_equal]
pub ghost struct IndexModel {
    pub fields: Seq<Seq<char>>,
    pub root: PageId,
    pub unique: bool,
    pub sparse: bool,
}

/// How an index is built.
#[derive(Clone, Copy, Debug, PartialEq, Eq, Structural)]
pub struct IndexOptions {
    /// No two documents may have equal values in it.
    pub unique: bool,
    /// Documents with a null or missing value get no entry: smaller for a
    /// field few documents have, but only used for queries that rule nulls
    /// out.
    pub sparse: bool,
}

impl Default for IndexOptions {
    fn default() -> (options: IndexOptions)
        ensures
            !options.unique && !options.sparse,
    {
        IndexOptions { unique: false, sparse: false }
    }
}

/// The texts of strings.
pub open spec fn texts(strings: Seq<String>) -> Seq<Seq<char>> {
    Seq::new(strings.len(), |i: int| strings[i]@)
}

impl View for IndexMeta {
    type V = IndexModel;

    open spec fn view(&self) -> IndexModel {
        IndexModel {
            fields: texts(self.fields@),
            root: self.root,
            unique: self.unique,
            sparse: self.sparse,
        }
    }
}

/// A list of texts in parentheses, separated by commas.
pub open spec fn comma_list(fields: Seq<Seq<char>>) -> Seq<char>
    decreases fields.len(),
{
    if fields.len() == 0 {
        seq![]
    } else if fields.len() == 1 {
        fields[0]
    } else {
        comma_list(fields.drop_last()) + ", "@ + fields.last()
    }
}

/// How lists and errors name an index.
pub open spec fn index_name(fields: Seq<Seq<char>>) -> Seq<char> {
    if fields.len() == 1 {
        fields[0]
    } else {
        "("@ + comma_list(fields) + ")"@
    }
}

/// Copies of strings.
pub fn clone_strings(strings: &[String]) -> (r: Vec<String>)
    ensures
        texts(r@) == texts(strings@),
{
    let mut r: Vec<String> = Vec::new();
    let n: usize = strings.len();
    for i in 0..n
        invariant
            n == strings@.len(),
            r@.len() == i,
            forall|k: int| 0 <= k < i ==> (#[trigger] r@[k])@ == strings@[k]@,
    {
        r.push(strings[i].clone());
    }
    assert(texts(r@) =~= texts(strings@));
    r
}

/// Whether two lists of strings hold the same texts.
pub fn strings_equal(a: &[String], b: &[String]) -> (r: bool)
    ensures
        r == (texts(a@) == texts(b@)),
{
    if a.len() != b.len() {
        assert(texts(a@).len() != texts(b@).len());
        return false;
    }
    let n: usize = a.len();
    for i in 0..n
        invariant
            n == a@.len() == b@.len(),
            forall|k: int| 0 <= k < i ==> a@[k]@ == b@[k]@,
    {
        if !str_equal(a[i].as_str(), b[i].as_str()) {
            assert(texts(a@)[i as int] != texts(b@)[i as int]);
            return false;
        }
    }
    assert(texts(a@) =~= texts(b@));
    true
}

impl Clone for IndexMeta {
    fn clone(&self) -> (r: IndexMeta)
        ensures
            r@ == self@,
    {
        IndexMeta {
            fields: clone_strings(self.fields.as_slice()),
            root: self.root,
            unique: self.unique,
            sparse: self.sparse,
        }
    }
}

impl PartialEq for IndexMeta {
    fn eq(&self, other: &IndexMeta) -> (r: bool) {
        let same: bool = strings_equal(self.fields.as_slice(), other.fields.as_slice()) && self.root
            == other.root && self.unique == other.unique && self.sparse == other.sparse;
        proof {
            if same {
                assert(self@ =~= other@);
            }
        }
        same
    }
}

impl vstd::std_specs::cmp::PartialEqSpecImpl for IndexMeta {
    open spec fn obeys_eq_spec() -> bool {
        true
    }

    open spec fn eq_spec(&self, other: &IndexMeta) -> bool {
        self@ == other@
    }
}

impl Eq for IndexMeta {

}

impl IndexMeta {
    /// How lists and errors name it: its field, or a compound index's
    /// fields in parentheses, `(status, created)`.
    pub fn name(&self) -> (r: String)
        ensures
            r@ == index_name(self@.fields),
    {
        let n: usize = self.fields.len();
        if n == 1 {
            return self.fields[0].clone();
        }
        let mut list = String::new();
        assert(comma_list(self@.fields.take(0)) =~= seq![]);
        for i in 0..n
            invariant
                n == self.fields@.len(),
                list@ == comma_list(self@.fields.take(i as int)),
        {
            if i > 0 {
                list.append(", ");
            }
            list.append(self.fields[i].as_str());
            proof {
                let more = self@.fields.take(i + 1);
                assert(more.drop_last() =~= self@.fields.take(i as int));
                assert(more.last() == self.fields@[i as int]@);
                if i == 0 {
                    assert(list@ =~= more[0]);
                } else {
                    assert(list@ =~= comma_list(more));
                }
            }
        }
        assert(self@.fields.take(n as int) =~= self@.fields);
        let name = join(&["(", list.as_str(), ")"]);
        proof {
            reveal_with_fuel(joined, 4);
            assert(name@ =~= "("@ + list@ + ")"@);
        }
        name
    }

    pub fn is_compound(&self) -> (r: bool)
        ensures
            r == (self@.fields.len() > 1),
    {
        self.fields.len() > 1
    }

    /// The field of a one-field index.
    pub fn single(&self) -> (r: Option<&str>)
        ensures
            match r {
                Some(field) => self@.fields.len() == 1 && field@ == self@.fields[0],
                None => self@.fields.len() != 1,
            },
    {
        if self.fields.len() == 1 {
            Some(self.fields[0].as_str())
        } else {
            None
        }
    }

    pub fn options(&self) -> (r: IndexOptions)
        ensures
            r == (IndexOptions { unique: self.unique, sparse: self.sparse }),
    {
        IndexOptions { unique: self.unique, sparse: self.sparse }
    }
}

/// What a catalog cell says.
#[verifier::ext_equal]
pub ghost enum EntryModel {
    Collection { name: Seq<char>, meta: CollectionMeta },
    Index { collection: Seq<char>, index: IndexModel },
}

/// A collection's cell: `[u8 kind][u64 index root][u64 current data page]`
/// and the name, last and unprefixed, since the slot directory already
/// records the cell's length.
pub open spec fn collection_cell(name: Seq<char>, meta: CollectionMeta) -> Seq<u8> {
    seq![KIND_COLLECTION] + le_bytes(meta.index_root as nat, 8) + le_bytes(
        meta.current_data_page as nat,
        8,
    ) + encode_utf8(name)
}

/// A text of at most 255 bytes: one length byte, then the bytes.
pub open spec fn short_text_bytes(text: Seq<char>) -> Seq<u8> {
    seq![encode_utf8(text).len() as u8] + encode_utf8(text)
}

/// Texts one after the other.
pub open spec fn short_texts_bytes(list: Seq<Seq<char>>) -> Seq<u8>
    decreases list.len(),
{
    if list.len() == 0 {
        seq![]
    } else {
        short_text_bytes(list[0]) + short_texts_bytes(list.skip(1))
    }
}

/// Whether an index is on one field, and not sparse.
pub open spec fn plain(index: IndexModel) -> bool {
    index.fields.len() <= 1 && !index.sparse
}

/// An index's flags.
pub open spec fn flags(index: IndexModel) -> u8 {
    if index.unique {
        if index.sparse {
            3
        } else {
            1
        }
    } else if index.sparse {
        2
    } else {
        0
    }
}

/// An index's cell: `[u8 kind][u64 root][u8 collection name length]
/// [collection name]`, then for a plain one-field index the field name. Any
/// other has `[u8 flags][u8 count]` and each field as `[u8 length][field
/// name]`. Names are at most 255 bytes, so one length byte does.
pub open spec fn index_cell(collection: Seq<char>, index: IndexModel) -> Seq<u8> {
    let kind = if !plain(index) {
        KIND_INDEX_WITH_FLAGS
    } else if index.unique {
        KIND_UNIQUE_INDEX
    } else {
        KIND_INDEX
    };
    let front = seq![kind] + le_bytes(index.root as nat, 8) + short_text_bytes(collection);
    if plain(index) {
        front + encode_utf8(index.fields[0])
    } else {
        front + seq![flags(index), index.fields.len() as u8] + short_texts_bytes(index.fields)
    }
}

/// The cell of an entry.
pub open spec fn entry_cell(entry: EntryModel) -> Seq<u8> {
    match entry {
        EntryModel::Collection { name, meta } => collection_cell(name, meta),
        EntryModel::Index { collection, index } => index_cell(collection, index),
    }
}

/// Reads a text that a length byte precedes.
pub open spec fn parse_short_text(bytes: Seq<u8>) -> Option<(Seq<char>, Seq<u8>)> {
    if bytes.len() < 1 || bytes.len() < 1 + bytes[0] || !valid_utf8(
        bytes.subrange(1, 1 + bytes[0] as int),
    ) {
        None
    } else {
        Some(
            (
                decode_utf8(bytes.subrange(1, 1 + bytes[0] as int)),
                bytes.skip(1 + bytes[0] as int),
            ),
        )
    }
}

/// Reads `count` such texts.
pub open spec fn parse_short_texts(bytes: Seq<u8>, count: nat) -> Option<Seq<Seq<char>>>
    decreases count,
{
    if count == 0 {
        Some(seq![])
    } else {
        match parse_short_text(bytes) {
            Some((text, rest)) => match parse_short_texts(rest, (count - 1) as nat) {
                Some(more) => Some(seq![text] + more),
                None => None,
            },
            None => None,
        }
    }
}

/// What a cell says; `None` if it is damaged.
pub open spec fn parse_entry(cell: Seq<u8>) -> Option<EntryModel> {
    if cell.len() < 9 {
        None
    } else {
        let kind = cell[0];
        let root = from_le(cell.subrange(1, 9)) as u64;
        let rest = cell.skip(9);
        if kind == KIND_COLLECTION {
            if rest.len() < 8 || !valid_utf8(rest.skip(8)) {
                None
            } else {
                let meta = CollectionMeta {
                    index_root: root,
                    current_data_page: from_le(rest.take(8)) as u64,
                };
                Some(EntryModel::Collection { name: decode_utf8(rest.skip(8)), meta })
            }
        } else if kind == KIND_INDEX || kind == KIND_UNIQUE_INDEX {
            match parse_short_text(rest) {
                Some((collection, field)) => if valid_utf8(field) {
                    let index = IndexModel {
                        fields: seq![decode_utf8(field)],
                        root,
                        unique: kind == KIND_UNIQUE_INDEX,
                        sparse: false,
                    };
                    Some(EntryModel::Index { collection, index })
                } else {
                    None
                },
                None => None,
            }
        } else if kind == KIND_INDEX_WITH_FLAGS {
            match parse_short_text(rest) {
                Some((collection, rest)) => if rest.len() < 2 || rest[0] > 3 {
                    None
                } else {
                    match parse_short_texts(rest.skip(2), rest[1] as nat) {
                        Some(fields) => {
                            let index = IndexModel {
                                fields,
                                root,
                                unique: rest[0] % 2 == 1,
                                sparse: rest[0] / 2 == 1,
                            };
                            Some(EntryModel::Index { collection, index })
                        },
                        None => None,
                    }
                },
                None => None,
            }
        } else {
            None
        }
    }
}

/// Whether a text's length fits in a byte.
pub open spec fn short(text: Seq<char>) -> bool {
    encode_utf8(text).len() <= 255
}

/// Whether an entry can be put in a cell.
pub open spec fn entry_fits(entry: EntryModel) -> bool {
    match entry {
        EntryModel::Collection { .. } => true,
        EntryModel::Index { collection, index } => {
            &&& short(collection)
            &&& 1 <= index.fields.len() <= 255
            &&& forall|i: int| 0 <= i < index.fields.len() ==> short(#[trigger] index.fields[i])
        },
    }
}

proof fn lemma_short_text(text: Seq<char>, rest: Seq<u8>)
    requires
        short(text),
    ensures
        parse_short_text(short_text_bytes(text) + rest) == Some((text, rest)),
{
    let all = short_text_bytes(text) + rest;
    encode_utf8_valid_utf8(text);
    encode_utf8_decode_utf8(text);
    assert(all.subrange(1, 1 + all[0] as int) =~= encode_utf8(text));
    assert(all.skip(1 + all[0] as int) =~= rest);
}

proof fn lemma_short_texts(list: Seq<Seq<char>>)
    requires
        forall|i: int| 0 <= i < list.len() ==> short(#[trigger] list[i]),
    ensures
        parse_short_texts(short_texts_bytes(list), list.len()) == Some(list),
    decreases list.len(),
{
    if list.len() > 0 {
        let rest = list.skip(1);
        assert forall|i: int| 0 <= i < rest.len() implies short(#[trigger] rest[i]) by {
            assert(rest[i] == list[i + 1]);
        }
        lemma_short_texts(rest);
        lemma_short_text(list[0], short_texts_bytes(rest));
        assert(seq![list[0]] + rest =~= list);
    } else {
        assert(list =~= seq![]);
    }
}

/// A catalog entry reads back from its cell.
pub proof fn entry_reads_back(entry: EntryModel)
    requires
        entry_fits(entry),
    ensures
        parse_entry(entry_cell(entry)) == Some(entry),
{
    lemma_pow256_values();
    let cell = entry_cell(entry);
    match entry {
        EntryModel::Collection { name, meta } => {
            lemma_le_roundtrip(meta.index_root as nat, 8);
            lemma_le_roundtrip(meta.current_data_page as nat, 8);
            encode_utf8_valid_utf8(name);
            encode_utf8_decode_utf8(name);
            assert(cell.subrange(1, 9) =~= le_bytes(meta.index_root as nat, 8));
            assert(cell.skip(9).take(8) =~= le_bytes(meta.current_data_page as nat, 8));
            assert(cell.skip(9).skip(8) =~= encode_utf8(name));
        },
        EntryModel::Index { collection, index } => {
            lemma_le_roundtrip(index.root as nat, 8);
            assert(cell.subrange(1, 9) =~= le_bytes(index.root as nat, 8));
            if plain(index) {
                let field = encode_utf8(index.fields[0]);
                encode_utf8_valid_utf8(index.fields[0]);
                encode_utf8_decode_utf8(index.fields[0]);
                assert(cell.skip(9) =~= short_text_bytes(collection) + field);
                lemma_short_text(collection, field);
                assert(index.fields =~= seq![index.fields[0]]);
            } else {
                let tail = seq![flags(index), index.fields.len() as u8] + short_texts_bytes(
                    index.fields,
                );
                assert(cell.skip(9) =~= short_text_bytes(collection) + tail);
                lemma_short_text(collection, tail);
                assert(tail.skip(2) =~= short_texts_bytes(index.fields));
                lemma_short_texts(index.fields);
            }
        },
    }
}

/// Texts of at most `max` bytes take so much room.
pub proof fn lemma_short_texts_len(list: Seq<Seq<char>>)
    requires
        forall|i: int| 0 <= i < list.len() ==> short(#[trigger] list[i]),
    ensures
        short_texts_bytes(list).len() <= 256 * list.len(),
    decreases list.len(),
{
    if list.len() > 0 {
        let rest = list.skip(1);
        assert forall|i: int| 0 <= i < rest.len() implies short(#[trigger] rest[i]) by {
            assert(rest[i] == list[i + 1]);
        }
        lemma_short_texts_len(rest);
        assert(short(list[0]));
    }
}

/// A collection's cell.
pub fn encode_collection(name: &str, meta: &CollectionMeta) -> (r: Vec<u8>)
    ensures
        r@ == collection_cell(name@, *meta),
{
    let mut buffer: Vec<u8> = Vec::new();
    buffer.push(KIND_COLLECTION);
    put_le(&mut buffer, meta.index_root, 8);
    put_le(&mut buffer, meta.current_data_page, 8);
    buffer.extend_from_slice(name.as_bytes());
    assert(buffer@ =~= collection_cell(name@, *meta));
    buffer
}

/// An index's cell.
pub fn encode_index(collection: &str, index: &IndexMeta) -> (r: Vec<u8>)
    requires
        entry_fits(EntryModel::Index { collection: collection@, index: index@ }),
    ensures
        r@ == index_cell(collection@, index@),
{
    let mut buffer: Vec<u8> = Vec::new();
    let is_plain: bool = !index.is_compound() && !index.sparse;
    buffer.push(
        if !is_plain {
            KIND_INDEX_WITH_FLAGS
        } else if index.unique {
            KIND_UNIQUE_INDEX
        } else {
            KIND_INDEX
        },
    );
    put_le(&mut buffer, index.root, 8);
    let name: &[u8] = collection.as_bytes();
    buffer.push(name.len() as u8);
    buffer.extend_from_slice(name);
    let ghost front = buffer@;
    assert(index.fields@[0]@ == index@.fields[0]);
    if is_plain {
        buffer.extend_from_slice(index.fields[0].as_str().as_bytes());
        assert(buffer@ =~= index_cell(collection@, index@));
        return buffer;
    }
    let flag_bits: u8 = if index.unique {
        if index.sparse {
            3
        } else {
            FLAG_UNIQUE
        }
    } else if index.sparse {
        FLAG_SPARSE
    } else {
        0
    };
    buffer.push(flag_bits);
    let n: usize = index.fields.len();
    buffer.push(n as u8);
    let ghost head = buffer@;
    assert(head =~= front + seq![flags(index@), n as u8]);
    assert(index@.fields.skip(0) =~= index@.fields);
    for i in 0..n
        invariant
            n == index.fields@.len(),
            head + short_texts_bytes(index@.fields) == buffer@ + short_texts_bytes(
                index@.fields.skip(i as int),
            ),
            forall|i: int| 0 <= i < index@.fields.len() ==> short(#[trigger] index@.fields[i]),
    {
        let ghost left = index@.fields.skip(i as int);
        let ghost before = buffer@;
        let field: &[u8] = index.fields[i].as_str().as_bytes();
        proof {
            assert(left[0] == index@.fields[i as int]);
            assert(short(index@.fields[i as int]));
            assert(left.skip(1) =~= index@.fields.skip(i + 1));
        }
        buffer.push(field.len() as u8);
        buffer.extend_from_slice(field);
        assert(buffer@ =~= before + short_text_bytes(left[0]));
        assert(buffer@ + short_texts_bytes(left.skip(1)) =~= before + short_texts_bytes(left));
    }
    assert(buffer@ + short_texts_bytes(index@.fields.skip(n as int)) =~= buffer@);
    assert(buffer@ =~= index_cell(collection@, index@));
    buffer
}

/// What a catalog cell was decoded to.
pub enum Entry {
    Collection(String, CollectionMeta),
    Index(String, IndexMeta),
}

impl View for Entry {
    type V = EntryModel;

    open spec fn view(&self) -> EntryModel {
        match self {
            Entry::Collection(name, meta) => EntryModel::Collection { name: name@, meta: *meta },
            Entry::Index(collection, index) => EntryModel::Index {
                collection: collection@,
                index: index@,
            },
        }
    }
}

/// A text out of the catalog.
fn catalog_text(bytes: &[u8]) -> (r: IoResult<String>)
    ensures
        match r {
            Ok(text) => valid_utf8(bytes@) && text@ == decode_utf8(bytes@),
            Err(e) => !valid_utf8(bytes@) && e.kind == ErrorKind::InvalidData,
        },
{
    match utf8_text(slice_to_vec(bytes)) {
        Some(text) => Ok(text),
        None => Err(corrupt("bad utf8 in catalog")),
    }
}

/// A text that a length byte precedes.
fn take_short_text(bytes: &mut &[u8], what: &str) -> (r: IoResult<String>)
    ensures
        match r {
            Ok(text) => parse_short_text(old(bytes)@) == Some((text@, final(bytes)@)),
            Err(e) => parse_short_text(old(bytes)@) is None && e.kind == ErrorKind::InvalidData,
        },
{
    let ghost all = bytes@;
    let len: u8 = match take_u8(bytes, what) {
        Ok(len) => len,
        Err(e) => return Err(e),
    };
    match take(bytes, len as usize, what) {
        Ok(raw) => {
            assert(raw@ =~= all.subrange(1, 1 + all[0] as int));
            assert(bytes@ =~= all.skip(1 + all[0] as int));
            catalog_text(raw)
        },
        Err(e) => Err(e),
    }
}

/// The digit of a number below 16, in hexadecimal.
fn hex_digit(d: u8) -> (s: &'static str)
    requires
        d < 16,
    ensures
        s@ == seq![hex_char(d as nat)],
{
    proof {
        reveal_strlit("0");
        reveal_strlit("1");
        reveal_strlit("2");
        reveal_strlit("3");
        reveal_strlit("4");
        reveal_strlit("5");
        reveal_strlit("6");
        reveal_strlit("7");
        reveal_strlit("8");
        reveal_strlit("9");
        reveal_strlit("a");
        reveal_strlit("b");
        reveal_strlit("c");
        reveal_strlit("d");
        reveal_strlit("e");
        reveal_strlit("f");
    }
    match d {
        0 => "0",
        1 => "1",
        2 => "2",
        3 => "3",
        4 => "4",
        5 => "5",
        6 => "6",
        7 => "7",
        8 => "8",
        9 => "9",
        10 => "a",
        11 => "b",
        12 => "c",
        13 => "d",
        14 => "e",
        _ => "f",
    }
}

/// The flags of an index's cell, where they say more than is known.
pub open spec fn unknown_flags(cell: Seq<u8>) -> Option<u8> {
    if cell.len() >= 9 && cell[0] == KIND_INDEX_WITH_FLAGS {
        match parse_short_text(cell.skip(9)) {
            Some((_, tail)) => if tail.len() > 0 && tail[0] > 3 {
                Some(tail[0])
            } else {
                None
            },
            None => None,
        }
    } else {
        None
    }
}

/// What decoding says of flags that are not known: their number in
/// hexadecimal, in two digits.
pub open spec fn flags_text(bits: u8) -> Seq<char> {
    corrupt_text(
        "unknown index flags 0x"@ + seq![
            hex_char((bits / 16) as nat),
            hex_char((bits % 16) as nat),
        ],
    )
}

/// What a cell says. One too short for its kind is damage.
pub fn decode_entry(cell: &[u8]) -> (r: IoResult<Entry>)
    ensures
        match r {
            Ok(entry) => parse_entry(cell@) == Some(entry@),
            Err(e) => {
                &&& parse_entry(cell@) is None
                &&& e.kind == ErrorKind::InvalidData
                &&& unknown_flags(cell@) matches Some(bits) ==> e.message@ == flags_text(bits)
            },
        },
{
    let mut rest: &[u8] = cell;
    let kind: u8 = match take_u8(&mut rest, "a catalog entry's kind") {
        Ok(kind) => kind,
        Err(e) => return Err(e),
    };
    assert(rest@.take(8) =~= cell@.subrange(1, 9) || cell@.len() < 9);
    let root: u64 = match take_u64(&mut rest, "a catalog entry's root") {
        Ok(root) => root,
        Err(e) => return Err(e),
    };
    assert(rest@ =~= cell@.skip(9));
    if kind == KIND_COLLECTION {
        let current_data_page: u64 = match take_u64(&mut rest, "a collection's current data page") {
            Ok(page) => page,
            Err(e) => return Err(e),
        };
        let name = match catalog_text(rest) {
            Ok(name) => name,
            Err(e) => return Err(e),
        };
        return Ok(Entry::Collection(name, CollectionMeta { index_root: root, current_data_page }));
    }
    if kind == KIND_INDEX || kind == KIND_UNIQUE_INDEX {
        let collection = match take_short_text(&mut rest, "an index's collection name") {
            Ok(collection) => collection,
            Err(e) => return Err(e),
        };
        let field = match catalog_text(rest) {
            Ok(field) => field,
            Err(e) => return Err(e),
        };
        let mut fields: Vec<String> = Vec::new();
        fields.push(field);
        let index = IndexMeta { fields, root, unique: kind == KIND_UNIQUE_INDEX, sparse: false };
        assert(index@.fields =~= seq![field@]);
        return Ok(Entry::Index(collection, index));
    }
    if kind == KIND_INDEX_WITH_FLAGS {
        let collection = match take_short_text(&mut rest, "an index's collection name") {
            Ok(collection) => collection,
            Err(e) => return Err(e),
        };
        let ghost tail = rest@;
        let flag_bits: u8 = match take_u8(&mut rest, "an index's flags") {
            Ok(bits) => bits,
            Err(e) => return Err(e),
        };
        if flag_bits > 3 {
            let text = join(
                &[
                    "unknown index flags 0x",
                    hex_digit(flag_bits / 16),
                    hex_digit(flag_bits % 16),
                ],
            );
            proof {
                reveal_with_fuel(joined, 4);
                assert(text@ =~= "unknown index flags 0x"@ + seq![
                    hex_char((flag_bits / 16) as nat),
                    hex_char((flag_bits % 16) as nat),
                ]);
            }
            return Err(corrupt(text.as_str()));
        }
        let count: u8 = match take_u8(&mut rest, "an index's field count") {
            Ok(count) => count,
            Err(e) => return Err(e),
        };
        assert(rest@ =~= tail.skip(2));
        let ghost wanted = parse_short_texts(rest@, count as nat);
        let mut fields: Vec<String> = Vec::new();
        proof {
            if wanted is Some {
                assert(texts(fields@) + wanted->Some_0 =~= wanted->Some_0);
            }
        }
        for i in 0..count
            invariant
                wanted == (match parse_short_texts(rest@, (count - i) as nat) {
                    Some(more) => Some(texts(fields@) + more),
                    None => None,
                }),
                wanted == parse_short_texts(tail.skip(2), count as nat),
                tail.len() >= 2,
                count == tail[1],
                flag_bits == tail[0],
                flag_bits <= 3,
                cell@.len() >= 9,
                cell@[0] == KIND_INDEX_WITH_FLAGS,
                parse_short_text(cell@.skip(9)) == Some((collection@, tail)),
        {
            let ghost before = fields@;
            let ghost left = rest@;
            let field = match take_short_text(&mut rest, "an index's field") {
                Ok(field) => field,
                Err(e) => {
                    assert(wanted is None);
                    return Err(e);
                },
            };
            fields.push(field);
            proof {
                assert(texts(fields@) =~= texts(before).push(field@));
                match parse_short_texts(rest@, (count - i - 1) as nat) {
                    Some(more) => {
                        assert(texts(before) + (seq![field@] + more) =~= texts(fields@) + more);
                    },
                    None => {},
                }
            }
        }
        let ghost none: Seq<Seq<char>> = seq![];
        assert(texts(fields@) + none =~= texts(fields@));
        let index = IndexMeta {
            fields,
            root,
            unique: flag_bits % 2 == 1,
            sparse: flag_bits / 2 == 1,
        };
        return Ok(Entry::Index(collection, index));
    }
    let number = decimal_text(kind as u64);
    Err(corrupt(join(&["unknown catalog entry kind ", number.as_str()]).as_str()))
}

} // verus!

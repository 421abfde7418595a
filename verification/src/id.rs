//! Document ids: making new ones, and their text.

use crate::document::DocId;
use vstd::prelude::*;

verus! {

/// A pluggable seam for id generation: a caller-supplied id scheme is a
/// drop-in swap.
pub trait IdGenerator {
    fn generate(&self) -> DocId;
}

/// The default: UUIDv7. It embeds a timestamp prefix, so ids stay roughly
/// time-ordered, which keeps a B-tree's inserts together.
#[derive(Debug, Default, Clone, Copy)]
pub struct UuidV7Generator;

/// `uuid::Uuid::now_v7`: a new id from the clock and random bits. Nothing
/// is claimed of it.
#[verifier::external_body]
fn new_uuid() -> (id: DocId) {
    DocId(*uuid::Uuid::now_v7().as_bytes())
}

impl IdGenerator for UuidV7Generator {
    fn generate(&self) -> DocId {
        new_uuid()
    }
}

/// The lower-case hexadecimal digit of a number below 16.
pub open spec fn hex_char(n: nat) -> char {
    if n == 0 {
        '0'
    } else if n == 1 {
        '1'
    } else if n == 2 {
        '2'
    } else if n == 3 {
        '3'
    } else if n == 4 {
        '4'
    } else if n == 5 {
        '5'
    } else if n == 6 {
        '6'
    } else if n == 7 {
        '7'
    } else if n == 8 {
        '8'
    } else if n == 9 {
        '9'
    } else if n == 10 {
        'a'
    } else if n == 11 {
        'b'
    } else if n == 12 {
        'c'
    } else if n == 13 {
        'd'
    } else if n == 14 {
        'e'
    } else {
        'f'
    }
}

/// Which of the 32 hexadecimal digits stands at place `i` of an id's text,
/// -1 where a hyphen does.
pub open spec fn digit_at(i: int) -> int {
    if i == 8 || i == 13 || i == 18 || i == 23 {
        -1
    } else if i < 8 {
        i
    } else if i < 13 {
        i - 1
    } else if i < 18 {
        i - 2
    } else if i < 23 {
        i - 3
    } else {
        i - 4
    }
}

/// Hexadecimal digit `k` of some bytes.
pub open spec fn nibble(bytes: Seq<u8>, k: int) -> nat {
    if k % 2 == 0 {
        (bytes[k / 2] / 16) as nat
    } else {
        (bytes[k / 2] % 16) as nat
    }
}

/// An id's text: 32 hexadecimal digits in groups of 8, 4, 4, 4 and 12,
/// separated by hyphens.
pub open spec fn id_text(bytes: Seq<u8>) -> Seq<char> {
    Seq::new(
        36,
        |i: int|
            if digit_at(i) < 0 {
                '-'
            } else {
                hex_char(nibble(bytes, digit_at(i)))
            },
    )
}

/// The id whose text this is, if it is one.
pub open spec fn hyphenated(text: Seq<char>) -> Option<Seq<u8>> {
    if exists|bytes: Seq<u8>| bytes.len() == 16 && #[trigger] id_text(bytes) == text {
        Some(choose|bytes: Seq<u8>| bytes.len() == 16 && #[trigger] id_text(bytes) == text)
    } else {
        None
    }
}

/// What `uuid::Uuid::parse_str` makes of a text that isn't hyphenated lower
/// case: upper-case digits, no hyphens, braces, a URN.
pub uninterp spec fn other_uuid_form(text: Seq<char>) -> Option<Seq<u8>>;

/// The id that a text stands for.
pub open spec fn parsed_id(text: Seq<char>) -> Option<Seq<u8>> {
    match hyphenated(text) {
        Some(bytes) => Some(bytes),
        None => other_uuid_form(text),
    }
}

proof fn lemma_hex_injective(n: nat, m: nat)
    requires
        n < 16,
        m < 16,
        hex_char(n) == hex_char(m),
    ensures
        n == m,
{
}

proof fn lemma_nibble_back(a: Seq<u8>, b: Seq<u8>, k: int)
    requires
        a.len() == 16,
        b.len() == 16,
        id_text(a) == id_text(b),
        0 <= k < 16,
    ensures
        a[k] == b[k],
{
    let high = if k < 4 {
        2 * k
    } else if k < 6 {
        2 * k + 1
    } else if k < 8 {
        2 * k + 2
    } else if k < 10 {
        2 * k + 3
    } else {
        2 * k + 4
    };
    assert(digit_at(high) == 2 * k);
    assert(digit_at(high + 1) == 2 * k + 1);
    assert(id_text(a)[high] == id_text(b)[high]);
    assert(id_text(a)[high + 1] == id_text(b)[high + 1]);
    assert(nibble(a, 2 * k) == a[k] / 16 && nibble(a, 2 * k + 1) == a[k] % 16);
    assert(nibble(b, 2 * k) == b[k] / 16 && nibble(b, 2 * k + 1) == b[k] % 16);
    assert(0 <= high < 35);
    assert(id_text(a)[high] == hex_char(nibble(a, digit_at(high))));
    assert(id_text(b)[high] == hex_char(nibble(b, digit_at(high))));
    assert(id_text(a)[high + 1] == hex_char(nibble(a, digit_at(high + 1))));
    assert(id_text(b)[high + 1] == hex_char(nibble(b, digit_at(high + 1))));
    assert(hex_char(nibble(a, 2 * k)) == hex_char(nibble(b, 2 * k)));
    assert(hex_char(nibble(a, 2 * k + 1)) == hex_char(nibble(b, 2 * k + 1)));
    lemma_hex_injective(nibble(a, 2 * k), nibble(b, 2 * k));
    lemma_hex_injective(nibble(a, 2 * k + 1), nibble(b, 2 * k + 1));
    assert(a[k] == a[k] / 16 * 16 + a[k] % 16);
    assert(b[k] == b[k] / 16 * 16 + b[k] % 16);
}

/// An id reads back from its text.
pub proof fn id_reads_back(bytes: Seq<u8>)
    requires
        bytes.len() == 16,
    ensures
        parsed_id(id_text(bytes)) == Some(bytes),
{
    let text = id_text(bytes);
    assert(bytes.len() == 16 && id_text(bytes) == text);
    let found = hyphenated(text)->Some_0;
    assert(found.len() == 16 && id_text(found) == text);
    assert forall|k: int| 0 <= k < 16 implies found[k] == bytes[k] by {
        lemma_nibble_back(found, bytes, k);
    }
    assert(found =~= bytes);
}

/// `uuid::Uuid`'s `Display`: the hyphenated text of an id, in lower case.
#[verifier::external_body]
fn uuid_text(id: &DocId) -> (r: String)
    ensures
        r@ == id_text(id@),
{
    format!("{}", uuid::Uuid::from_bytes(id.0))
}

/// `uuid::Uuid::parse_str`: the id a text stands for. A hyphenated text in
/// lower case gives its bytes; what the other forms give is named, not
/// stated.
#[verifier::external_body]
fn parse_uuid(text: &str) -> (r: Option<DocId>)
    ensures
        hyphenated(text@) is Some ==> r is Some && hyphenated(text@) == Some(r->Some_0@),
        hyphenated(text@) is None ==> (match r {
            Some(id) => other_uuid_form(text@) == Some(id@),
            None => other_uuid_form(text@) is None,
        }),
{
    uuid::Uuid::parse_str(text).ok().map(|uuid| DocId(uuid.into_bytes()))
}

impl DocId {
    /// The id's text.
    pub fn to_string(&self) -> (r: String)
        ensures
            r@ == id_text(self@),
    {
        uuid_text(self)
    }

    /// The id that a text stands for; `None` if it is no UUID.
    pub fn parse(text: &str) -> (r: Option<DocId>)
        ensures
            match r {
                Some(id) => parsed_id(text@) == Some(id@),
                None => parsed_id(text@) is None,
            },
    {
        parse_uuid(text)
    }
}

} // verus!

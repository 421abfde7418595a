//! White space in texts, and what messages name.

use crate::error::{error_text, Error};
use crate::id::id_text;
use crate::lines::{blank, is_white, trimmed, trimmed_end};
use crate::text::{decimal, quoted_text};
use vstd::prelude::*;

verus! {

/// White space is the tab, the line ends, the space, and the spaces and line ends
/// beyond ASCII; no other character below U+0080 is.
pub proof fn white_space_is_spaces_and_line_ends(c: char)
    ensures
        (c as u32) < 0x80 ==> (is_white(c) <==> seq![
            '\t',
            '\n',
            '\u{B}',
            '\u{C}',
            '\r',
            ' ',
        ].contains(c)),
        (c as u32) >= 0x80 ==> (is_white(c) <==> seq![
            '\u{85}',
            '\u{A0}',
            '\u{1680}',
            '\u{2000}',
            '\u{2001}',
            '\u{2002}',
            '\u{2003}',
            '\u{2004}',
            '\u{2005}',
            '\u{2006}',
            '\u{2007}',
            '\u{2008}',
            '\u{2009}',
            '\u{200A}',
            '\u{2028}',
            '\u{2029}',
            '\u{202F}',
            '\u{205F}',
            '\u{3000}',
        ].contains(c)),
{
    let ascii = seq!['\t', '\n', '\u{B}', '\u{C}', '\r', ' '];
    let beyond = seq![
        '\u{85}',
        '\u{A0}',
        '\u{1680}',
        '\u{2000}',
        '\u{2001}',
        '\u{2002}',
        '\u{2003}',
        '\u{2004}',
        '\u{2005}',
        '\u{2006}',
        '\u{2007}',
        '\u{2008}',
        '\u{2009}',
        '\u{200A}',
        '\u{2028}',
        '\u{2029}',
        '\u{202F}',
        '\u{205F}',
        '\u{3000}',
    ];
    let n = c as u32;
    if n < 0x80 {
        if is_white(c) {
            if n == 0x20 {
                assert(ascii[5] == c);
            } else {
                assert(ascii[n - 9] == c);
            }
        }
    } else if is_white(c) {
        if n == 0x85 {
            assert(beyond[0] == c);
        } else if n == 0xA0 {
            assert(beyond[1] == c);
        } else if n == 0x1680 {
            assert(beyond[2] == c);
        } else if n <= 0x200A {
            assert(beyond[n - 0x2000 + 3] == c);
        } else if n == 0x2028 {
            assert(beyond[14] == c);
        } else if n == 0x2029 {
            assert(beyond[15] == c);
        } else if n == 0x202F {
            assert(beyond[16] == c);
        } else if n == 0x205F {
            assert(beyond[17] == c);
        } else {
            assert(beyond[18] == c);
        }
    }
}

/// Trimming takes white space from both ends of a text, all of it, and nothing
/// else.
pub proof fn trimming_takes_the_white_space_around(a: Seq<char>, text: Seq<char>, b: Seq<char>)
    requires
        blank(a),
        blank(b),
        text.len() > 0 ==> !is_white(text[0]) && !is_white(text.last()),
    ensures
        trimmed(a + text + b) == text,
    decreases a.len(),
{
    let whole = a + text + b;
    if a.len() > 0 {
        assert(is_white(a[0]));
        assert(whole[0] == a[0]);
        assert(whole.skip(1) =~= a.skip(1) + text + b);
        assert forall|i: int| 0 <= i < a.skip(1).len() implies is_white(
            #[trigger] a.skip(1)[i],
        ) by {
            assert(a.skip(1)[i] == a[i + 1]);
        }
        trimming_takes_the_white_space_around(a.skip(1), text, b);
    } else if text.len() > 0 {
        assert(whole[0] == text[0]);
        assert(whole =~= text + b);
        lemma_trimmed_end(text, b);
    } else if b.len() > 0 {
        assert(whole =~= b);
        assert(is_white(b[0]));
        assert(b =~= b + text + Seq::<char>::empty());
        lemma_blank_trimmed(b);
    } else {
        assert(whole =~= text);
    }
}

proof fn lemma_blank_trimmed(b: Seq<char>)
    requires
        blank(b),
    ensures
        trimmed(b) == Seq::<char>::empty(),
    decreases b.len(),
{
    if b.len() > 0 {
        assert(is_white(b[0]));
        assert forall|i: int| 0 <= i < b.skip(1).len() implies is_white(
            #[trigger] b.skip(1)[i],
        ) by {
            assert(b.skip(1)[i] == b[i + 1]);
        }
        lemma_blank_trimmed(b.skip(1));
    } else {
        assert(trimmed(b) =~= b);
    }
}

proof fn lemma_trimmed_end(text: Seq<char>, b: Seq<char>)
    requires
        blank(b),
        text.len() > 0,
        !is_white(text.last()),
    ensures
        trimmed_end(text + b) == text,
    decreases b.len(),
{
    if b.len() > 0 {
        assert(is_white(b[b.len() - 1]));
        assert((text + b).last() == b.last());
        assert((text + b).drop_last() =~= text + b.drop_last());
        assert forall|i: int| 0 <= i < b.drop_last().len() implies is_white(
            #[trigger] b.drop_last()[i],
        ) by {
            assert(b.drop_last()[i] == b[i]);
        }
        lemma_trimmed_end(text, b.drop_last());
    } else {
        assert(text + b =~= text);
    }
}

/// Whether a piece stands in a text, with these around it.
pub open spec fn stands_in(
    text: Seq<char>,
    front: Seq<char>,
    piece: Seq<char>,
    back: Seq<char>,
) -> bool {
    text == front + piece + back
}

/// Whether pieces stand in a text, one behind the other.
pub open spec fn names(text: Seq<char>, pieces: Seq<Seq<char>>) -> bool
    decreases pieces.len(),
{
    pieces.len() == 0 || exists|front: Seq<char>, back: Seq<char>| #[trigger]
        stands_in(text, front, pieces[0], back) && names(back, pieces.skip(1))
}

/// A message names what it is about: the collection, the field, the documents,
/// of two that collide first the one that was there; and the numbers.
pub proof fn a_message_names_what_it_is_about(e: Error)
    ensures
        e matches Error::DuplicateId { collection, id } ==> names(
            error_text(e),
            seq![quoted_text(collection@), id_text(id@)],
        ),
        e matches Error::NotFound { collection, id } ==> names(
            error_text(e),
            seq![quoted_text(collection@), id_text(id@)],
        ),
        e matches Error::DuplicateValue { collection, field, id, existing } ==> names(
            error_text(e),
            seq![quoted_text(collection@), quoted_text(field@), id_text(existing@), id_text(id@)],
        ),
        e matches Error::MultipleMatches { collection, count } ==> names(
            error_text(e),
            seq![quoted_text(collection@), decimal(count as nat)],
        ),
        e matches Error::Import { line, message } ==> names(
            error_text(e),
            seq![decimal(line as nat), message@],
        ),
{
    let none = Seq::<char>::empty();
    match e {
        Error::DuplicateId { collection, id } => {
            lemma_two(
                error_text(e),
                "collection "@,
                quoted_text(collection@),
                " already has a document with id "@,
                id_text(id@),
                none,
            );
        },
        Error::NotFound { collection, id } => {
            lemma_two(
                error_text(e),
                "collection "@,
                quoted_text(collection@),
                " has no document with id "@,
                id_text(id@),
                none,
            );
        },
        Error::DuplicateValue { collection, field, id, existing } => {
            let there = id_text(existing@);
            let new = id_text(id@);
            let end = " would have the same value there"@;
            let back = ", and documents "@ + there + " and "@ + new + end;
            lemma_two(back, ", and documents "@, there, " and "@, new, end);
            let last = seq![there, new];
            let middle = " has a unique index on "@ + quoted_text(field@) + back;
            let three = seq![quoted_text(field@), there, new];
            assert(three.skip(1) =~= last);
            assert(stands_in(middle, " has a unique index on "@, three[0], back));
            assert(names(middle, three));
            let all = seq![quoted_text(collection@), quoted_text(field@), there, new];
            assert(all.skip(1) =~= three);
            assert(error_text(e) =~= "collection "@ + all[0] + middle);
            assert(stands_in(error_text(e), "collection "@, all[0], middle));
        },
        Error::MultipleMatches { collection, count } => {
            lemma_two(
                error_text(e),
                "upsert into "@,
                quoted_text(collection@),
                ": "@,
                decimal(count as nat),
                " documents match the filter, expected at most one"@,
            );
        },
        Error::Import { line, message } => {
            lemma_two(error_text(e), "import, line "@, decimal(line as nat), ": "@, message@, none);
        },
        _ => {},
    }
}

/// Two pieces with something around them.
proof fn lemma_two(
    text: Seq<char>,
    a: Seq<char>,
    x: Seq<char>,
    b: Seq<char>,
    y: Seq<char>,
    c: Seq<char>,
)
    requires
        text == a + x + b + y + c || (c.len() == 0 && text == a + x + b + y),
    ensures
        names(text, seq![x, y]),
{
    let two = seq![x, y];
    let one = seq![y];
    let back = b + y + c;
    assert(one.skip(1) =~= Seq::<Seq<char>>::empty());
    assert(names(c, one.skip(1)));
    assert(stands_in(back, b, one[0], c));
    assert(names(back, one));
    assert(two.skip(1) =~= one);
    assert(text =~= a + x + back);
    assert(stands_in(text, a, two[0], back));
}

} // verus!

//! Where paths lead.

use super::comparing::{lemma_ascii_char, lemma_utf8_pieces};
use crate::document::{distinct_keys, DocModel};
use crate::path::{
    all_elements, all_values, dot_position, elements, ends_with_star, field_position, is_plain,
    lemma_plain_path, named, path_steps, starless, step_of, value_of, values, values_of, StepModel,
};
use crate::text::lemma_utf8_injective;
use vstd::prelude::*;
use vstd::utf8::{encode_scalar, encode_utf8, has_width_1_encoding};

verus! {

/// A name with any number of `[*]` behind it.
pub open spec fn starred(name: Seq<char>, stars: nat) -> Seq<char>
    decreases stars,
{
    if stars == 0 {
        name
    } else {
        starred(name, (stars - 1) as nat) + seq!['[', '*', ']']
    }
}

/// Names, each with its `[*]`, separated by dots.
pub open spec fn dotted(parts: Seq<(Seq<char>, nat)>) -> Seq<char>
    decreases parts.len(),
{
    if parts.len() == 0 {
        seq![]
    } else if parts.len() == 1 {
        starred(parts[0].0, parts[0].1)
    } else {
        starred(parts[0].0, parts[0].1) + seq!['.'] + dotted(parts.skip(1))
    }
}

/// Whether a text can be a name in a path: no dot in it, and no `[*]` at its
/// end.
pub open spec fn is_name(name: Seq<char>) -> bool {
    !name.contains('.') && !(name.len() >= 3 && name.skip(name.len() - 3) == seq!['[', '*', ']'])
}

// ---------------------------------------------------------------------
// Characters and bytes.

/// A character that isn't ASCII has no ASCII byte.
proof fn lemma_scalar_bytes(c: char)
    ensures
        (c as u32) < 0x80 ==> encode_scalar(c as u32) == seq![c as u8],
        (c as u32) >= 0x80 ==> forall|i: int|
            0 <= i < encode_scalar(c as u32).len() ==> #[trigger] encode_scalar(c as u32)[i] >= 0x80,
        encode_scalar(c as u32).len() >= 1,
{
    let s = c as u32;
    if has_width_1_encoding(s) {
        assert((s & 0x7F) as u8 == s as u8) by (bit_vector)
            requires
                s <= 0x7F,
        ;
    } else {
        assert(0xC0u8 | ((s >> 6) & 0x1F) as u8 >= 0x80 && 0xE0u8 | ((s >> 12) & 0x0F) as u8 >= 0x80
            && 0xF0u8 | ((s >> 18) & 0x7) as u8 >= 0x80 && 0x80u8 | (s & 0x3F) as u8 >= 0x80
            && 0x80u8 | ((s >> 6) & 0x3F) as u8 >= 0x80 && 0x80u8 | ((s >> 12) & 0x3F) as u8
            >= 0x80) by (bit_vector);
    }
}

/// An ASCII byte is among a character's bytes exactly if it is that character.
proof fn lemma_scalar_has(a: char, c: char)
    requires
        (c as u32) < 0x80,
    ensures
        forall|i: int|
            0 <= i < encode_scalar(a as u32).len() ==> (#[trigger] encode_scalar(a as u32)[i]
                == c as u8 <==> a == c),
        encode_scalar(a as u32).len() >= 1,
{
    lemma_scalar_bytes(a);
    assert((c as u8) as u32 == c as u32);
    if (a as u32) < 0x80 {
        assert((a as u8) as u32 == a as u32);
        assert(encode_scalar(a as u32)[0] == a as u8);
    }
}

/// An ASCII byte is in a text's bytes exactly if its character is in the text.
pub proof fn lemma_ascii_bytes(text: Seq<char>, c: char)
    requires
        (c as u32) < 0x80,
    ensures
        encode_utf8(text).contains(c as u8) <==> text.contains(c),
    decreases text.len(),
{
    let bytes = encode_utf8(text);
    if text.len() > 0 {
        let rest = text.drop_first();
        let head = encode_scalar(text[0] as u32);
        let tail = encode_utf8(rest);
        lemma_ascii_bytes(rest, c);
        lemma_scalar_has(text[0], c);
        assert(bytes == head + tail);
        if bytes.contains(c as u8) {
            let i = choose|i: int| 0 <= i < bytes.len() && bytes[i] == c as u8;
            if i < head.len() {
                assert(head[i] == c as u8);
                assert(text[0] == c);
            } else {
                assert(tail[i - head.len()] == c as u8);
                assert(rest.contains(c));
                let j = choose|j: int| 0 <= j < rest.len() && rest[j] == c;
                assert(text[j + 1] == c);
            }
        }
        if text.contains(c) {
            let j = choose|j: int| 0 <= j < text.len() && text[j] == c;
            if j == 0 {
                assert(bytes[0] == c as u8);
            } else {
                assert(rest[j - 1] == c);
                assert(rest.contains(c));
                let i = choose|i: int| 0 <= i < tail.len() && tail[i] == c as u8;
                assert(bytes[head.len() + i] == c as u8);
            }
        }
    }
}

/// A text whose last byte is an ASCII character's ends with that character.
proof fn lemma_ends_with(text: Seq<char>, c: char)
    requires
        (c as u32) < 0x80,
        encode_utf8(text).len() > 0,
        encode_utf8(text).last() == c as u8,
    ensures
        text.len() > 0,
        text.last() == c,
        encode_utf8(text.drop_last()) == encode_utf8(text).drop_last(),
{
    let front = text.drop_last();
    let last = seq![text.last()];
    let end = text.last();
    let bytes = encode_scalar(end as u32);
    assert(text =~= front + last);
    lemma_utf8_pieces(front, last);
    assert(last.drop_first() =~= Seq::<char>::empty());
    assert(encode_utf8(last.drop_first()) =~= Seq::<u8>::empty());
    assert(encode_utf8(last) =~= bytes);
    lemma_scalar_has(end, c);
    assert(encode_utf8(text).last() == bytes[bytes.len() - 1]);
    lemma_ascii_char(c);
    assert(encode_utf8(text).drop_last() =~= encode_utf8(front));
}

// ---------------------------------------------------------------------
// Steps.

proof fn lemma_no_dot(bytes: Seq<u8>)
    requires
        !bytes.contains(46u8),
    ensures
        dot_position(bytes) == bytes.len(),
    decreases bytes.len(),
{
    if bytes.len() > 0 {
        assert(bytes[0] != 46u8);
        let rest = bytes.skip(1);
        assert forall|i: int| 0 <= i < rest.len() implies rest[i] != 46u8 by {
            assert(rest[i] == bytes[i + 1]);
        }
        lemma_no_dot(rest);
    }
}

proof fn lemma_first_dot(front: Seq<u8>, back: Seq<u8>)
    requires
        !front.contains(46u8),
    ensures
        dot_position(front + seq![46u8] + back) == front.len(),
    decreases front.len(),
{
    let whole = front + seq![46u8] + back;
    if front.len() > 0 {
        assert(front[0] != 46u8);
        let rest = front.skip(1);
        assert forall|i: int| 0 <= i < rest.len() implies rest[i] != 46u8 by {
            assert(rest[i] == front[i + 1]);
        }
        lemma_first_dot(rest, back);
        assert(whole.skip(1) =~= rest + seq![46u8] + back);
    }
}

/// A name with its stars is one step.
proof fn lemma_starred(name: Seq<char>, stars: nat)
    requires
        is_name(name),
    ensures
        step_of(encode_utf8(starred(name, stars))) == (StepModel {
            name: encode_utf8(name),
            stars,
        }),
        !starred(name, stars).contains('.'),
    decreases stars,
{
    let bytes = encode_utf8(starred(name, stars));
    if stars == 0 {
        if ends_with_star(bytes) {
            lemma_ends_with(name, ']');
            let two = name.drop_last();
            lemma_ends_with(two, '*');
            let one = two.drop_last();
            lemma_ends_with(one, '[');
            assert(name.skip(name.len() - 3) =~= seq!['[', '*', ']']);
        }
    } else {
        let less = starred(name, (stars - 1) as nat);
        let star = seq!['[', '*', ']'];
        lemma_starred(name, (stars - 1) as nat);
        lemma_utf8_pieces(less, star);
        assert(star =~= seq!['['] + seq!['*'] + seq![']']);
        lemma_utf8_pieces(seq!['['] + seq!['*'], seq![']']);
        lemma_utf8_pieces(seq!['['], seq!['*']);
        lemma_ascii_char('[');
        lemma_ascii_char('*');
        lemma_ascii_char(']');
        assert(encode_utf8(star) =~= seq![91u8, 42u8, 93u8]);
        assert(bytes.take(bytes.len() - 3) =~= encode_utf8(less));
        assert forall|i: int| 0 <= i < starred(name, stars).len() implies starred(name, stars)[i]
            != '.' by {
            if i < less.len() {
                assert(starred(name, stars)[i] == less[i]);
                assert(less.contains(less[i]));
            } else {
                assert(starred(name, stars)[i] == star[i - less.len()]);
            }
        }
    }
}

/// What a dot parts are steps of their own.
proof fn lemma_dot_parts(first: Seq<char>, rest: Seq<char>)
    requires
        !first.contains('.'),
    ensures
        path_steps(first + seq!['.'] + rest) == seq![step_of(encode_utf8(first))] + path_steps(rest),
        path_steps(first) == seq![step_of(encode_utf8(first))],
{
    let a = encode_utf8(first);
    let b = encode_utf8(rest);
    lemma_utf8_pieces(first + seq!['.'], rest);
    lemma_utf8_pieces(first, seq!['.']);
    lemma_ascii_char('.');
    lemma_ascii_bytes(first, '.');
    lemma_first_dot(a, b);
    lemma_no_dot(a);
    let whole = a + seq![46u8] + b;
    assert(whole.take(a.len() as int) =~= a);
    assert(whole.skip(a.len() as int + 1) =~= b);
}

/// A path reads as the names it was written from, each with its stars.
pub proof fn a_path_reads_as_its_names(parts: Seq<(Seq<char>, nat)>)
    requires
        parts.len() > 0,
        forall|i: int| 0 <= i < parts.len() ==> is_name((#[trigger] parts[i]).0),
    ensures
        path_steps(dotted(parts)).len() == parts.len(),
        forall|i: int|
            0 <= i < parts.len() ==> (#[trigger] path_steps(dotted(parts))[i]).name == encode_utf8(
                parts[i].0,
            ) && path_steps(dotted(parts))[i].stars == parts[i].1,
    decreases parts.len(),
{
    let first = starred(parts[0].0, parts[0].1);
    lemma_starred(parts[0].0, parts[0].1);
    let steps = path_steps(dotted(parts));
    if parts.len() == 1 {
        lemma_dot_parts(first, Seq::empty());
    } else {
        let rest = parts.skip(1);
        assert forall|i: int| 0 <= i < rest.len() implies is_name((#[trigger] rest[i]).0) by {
            assert(rest[i] == parts[i + 1]);
        }
        a_path_reads_as_its_names(rest);
        lemma_dot_parts(first, dotted(rest));
        assert forall|i: int| 0 <= i < parts.len() implies (#[trigger] steps[i]).name
            == encode_utf8(parts[i].0) && steps[i].stars == parts[i].1 by {
            if i > 0 {
                assert(steps[i] == path_steps(dotted(rest))[i - 1]);
                assert(rest[i - 1] == parts[i]);
            }
        }
    }
}

// ---------------------------------------------------------------------
// Fields.

proof fn lemma_field_there(entries: Seq<(Seq<char>, DocModel)>, i: int)
    requires
        distinct_keys(entries),
        0 <= i < entries.len(),
    ensures
        named(DocModel::Object(entries), encode_utf8(entries[i].0)) == Some(entries[i].1),
    decreases entries.len(),
{
    lemma_position_there(entries, i);
}

proof fn lemma_position_there(entries: Seq<(Seq<char>, DocModel)>, i: int)
    requires
        distinct_keys(entries),
        0 <= i < entries.len(),
    ensures
        field_position(entries, encode_utf8(entries[i].0)) == i,
    decreases entries.len(),
{
    if i > 0 {
        assert(entries[0].0 != entries[i].0);
        if encode_utf8(entries[0].0) == encode_utf8(entries[i].0) {
            lemma_utf8_injective(entries[0].0, entries[i].0);
        }
        let rest = entries.skip(1);
        assert(rest[i - 1] == entries[i]);
        assert forall|a: int, b: int| 0 <= a < b < rest.len() implies (#[trigger] rest[a]).0 != (
        #[trigger] rest[b]).0 by {
            assert(rest[a] == entries[a + 1] && rest[b] == entries[b + 1]);
        }
        lemma_position_there(rest, i - 1);
    }
}

proof fn lemma_field_missing(entries: Seq<(Seq<char>, DocModel)>, name: Seq<char>)
    requires
        forall|i: int| 0 <= i < entries.len() ==> (#[trigger] entries[i]).0 != name,
    ensures
        named(DocModel::Object(entries), encode_utf8(name)) is None,
{
    lemma_position_missing(entries, name);
}

proof fn lemma_position_missing(entries: Seq<(Seq<char>, DocModel)>, name: Seq<char>)
    requires
        forall|i: int| 0 <= i < entries.len() ==> (#[trigger] entries[i]).0 != name,
    ensures
        field_position(entries, encode_utf8(name)) == entries.len(),
    decreases entries.len(),
{
    if entries.len() > 0 {
        if encode_utf8(entries[0].0) == encode_utf8(name) {
            lemma_utf8_injective(entries[0].0, name);
        }
        let rest = entries.skip(1);
        assert forall|i: int| 0 <= i < rest.len() implies (#[trigger] rest[i]).0 != name by {
            assert(rest[i] == entries[i + 1]);
        }
        lemma_position_missing(rest, name);
    }
}

proof fn lemma_one_value(m: DocModel, steps: Seq<StepModel>)
    ensures
        all_values(seq![m], steps, 1) == values(m, steps),
{
    let one = seq![m];
    assert(all_values(one, steps, 0) =~= Seq::<DocModel>::empty());
    assert(all_values(one, steps, 1) =~= values(m, steps));
}

/// A name leads to the field of that name.
pub proof fn a_name_leads_to_its_field(entries: Seq<(Seq<char>, DocModel)>, i: int)
    requires
        distinct_keys(entries),
        0 <= i < entries.len(),
        is_name(entries[i].0),
    ensures
        values_of(DocModel::Object(entries), entries[i].0) == seq![entries[i].1],
        value_of(DocModel::Object(entries), entries[i].0) == entries[i].1,
{
    let name = entries[i].0;
    lemma_starred(name, 0);
    lemma_dot_parts(name, Seq::empty());
    lemma_field_there(entries, i);
    let steps = path_steps(name);
    assert(steps.skip(1) =~= Seq::<StepModel>::empty());
    let value = entries[i].1;
    assert(elements(value, 0) == seq![value]);
    lemma_one_value(value, steps.skip(1));
    assert(values(value, steps.skip(1)) == seq![value]);
    reveal(is_plain);
}

/// A name that no field has leads to null, in what is no object too.
pub proof fn a_name_that_is_missing_leads_to_null(m: DocModel, name: Seq<char>)
    requires
        is_name(name),
        m matches DocModel::Object(entries) ==> forall|i: int|
            0 <= i < entries.len() ==> (#[trigger] entries[i]).0 != name,
    ensures
        values_of(m, name) == seq![DocModel::Null],
        value_of(m, name) == DocModel::Null,
{
    lemma_starred(name, 0);
    lemma_dot_parts(name, Seq::empty());
    match m {
        DocModel::Object(entries) => {
            lemma_field_missing(entries, name);
        },
        _ => {},
    }
    reveal(is_plain);
    assert(starless(path_steps(name)));
}

/// Behind a dot, a path leads on from the field in front of it.
pub proof fn a_dot_leads_on(entries: Seq<(Seq<char>, DocModel)>, i: int, rest: Seq<char>)
    requires
        distinct_keys(entries),
        0 <= i < entries.len(),
        is_name(entries[i].0),
    ensures
        values_of(DocModel::Object(entries), entries[i].0 + seq!['.'] + rest) == values_of(
            entries[i].1,
            rest,
        ),
        value_of(DocModel::Object(entries), entries[i].0 + seq!['.'] + rest) == value_of(
            entries[i].1,
            rest,
        ),
{
    let name = entries[i].0;
    let value = entries[i].1;
    lemma_starred(name, 0);
    lemma_dot_parts(name, rest);
    lemma_field_there(entries, i);
    let steps = path_steps(name + seq!['.'] + rest);
    assert(steps.skip(1) =~= path_steps(rest));
    assert(elements(value, 0) == seq![value]);
    lemma_one_value(value, path_steps(rest));
    reveal(is_plain);
    assert(starless(steps) <==> starless(path_steps(rest))) by {
        if starless(steps) {
            assert forall|j: int| 0 <= j < path_steps(rest).len() implies (
            #[trigger] path_steps(rest)[j]).stars == 0 by {
                assert(path_steps(rest)[j] == steps[j + 1]);
            }
        }
        if starless(path_steps(rest)) {
            assert forall|j: int| 0 <= j < steps.len() implies (#[trigger] steps[j]).stars == 0 by {
                if j > 0 {
                    assert(steps[j] == path_steps(rest)[j - 1]);
                }
            }
        }
    }
}

/// Where the field in front of a dot is missing, a path of plain names leads to
/// null; one with a `[*]` leads nowhere.
pub proof fn a_missing_field_ends_a_path(m: DocModel, parts: Seq<(Seq<char>, nat)>)
    requires
        parts.len() > 0,
        forall|i: int| 0 <= i < parts.len() ==> is_name((#[trigger] parts[i]).0),
        m matches DocModel::Object(entries) ==> forall|i: int|
            0 <= i < entries.len() ==> (#[trigger] entries[i]).0 != parts[0].0,
    ensures
        (forall|i: int| 0 <= i < parts.len() ==> (#[trigger] parts[i]).1 == 0) ==> values_of(
            m,
            dotted(parts),
        ) == seq![DocModel::Null],
        (exists|i: int| 0 <= i < parts.len() && (#[trigger] parts[i]).1 > 0) ==> values_of(
            m,
            dotted(parts),
        ) == Seq::<DocModel>::empty(),
{
    a_path_reads_as_its_names(parts);
    let steps = path_steps(dotted(parts));
    assert(steps[0].name == encode_utf8(parts[0].0));
    match m {
        DocModel::Object(entries) => {
            lemma_field_missing(entries, parts[0].0);
        },
        _ => {},
    }
    if forall|i: int| 0 <= i < parts.len() ==> (#[trigger] parts[i]).1 == 0 {
        assert forall|i: int| 0 <= i < steps.len() implies (#[trigger] steps[i]).stars == 0 by {
            assert(parts[i].1 == 0);
        }
    }
    if exists|i: int| 0 <= i < parts.len() && (#[trigger] parts[i]).1 > 0 {
        let i = choose|i: int| 0 <= i < parts.len() && (#[trigger] parts[i]).1 > 0;
        assert(steps[i].stars == parts[i].1);
        assert(!starless(steps));
    }
}

// ---------------------------------------------------------------------
// Elements.

proof fn lemma_elements_front(items: Seq<DocModel>, last: DocModel, stars: nat, n: nat)
    requires
        n <= items.len(),
    ensures
        all_elements(items.push(last), stars, n) == all_elements(items, stars, n),
    decreases n,
{
    if n > 0 {
        lemma_elements_front(items, last, stars, (n - 1) as nat);
        assert(items.push(last)[n - 1] == items[n - 1]);
    }
}

proof fn lemma_values_front(a: Seq<DocModel>, b: Seq<DocModel>, steps: Seq<StepModel>, n: nat)
    requires
        n <= a.len(),
    ensures
        all_values(a + b, steps, n) == all_values(a, steps, n),
    decreases n,
{
    if n > 0 {
        lemma_values_front(a, b, steps, (n - 1) as nat);
        assert((a + b)[n - 1] == a[n - 1]);
    }
}

proof fn lemma_values_pieces(a: Seq<DocModel>, b: Seq<DocModel>, steps: Seq<StepModel>, n: nat)
    requires
        n <= b.len(),
    ensures
        all_values(a + b, steps, (a.len() + n) as nat) == all_values(a, steps, a.len()) + all_values(
            b,
            steps,
            n,
        ),
    decreases n,
{
    let front = all_values(a, steps, a.len());
    if n == 0 {
        lemma_values_front(a, b, steps, a.len());
        assert(all_values(b, steps, 0) =~= Seq::<DocModel>::empty());
        assert(front + Seq::<DocModel>::empty() =~= front);
    } else {
        lemma_values_pieces(a, b, steps, (n - 1) as nat);
        assert((a + b)[a.len() + n - 1] == b[n - 1]);
        let middle = all_values(b, steps, (n - 1) as nat);
        let last = values(b[n - 1], steps);
        assert(front + middle + last =~= front + (middle + last));
    }
}

/// What a path ends with, behind its first name: nothing, or a dot and a path.
pub open spec fn tail_of(rest: Option<Seq<char>>) -> Seq<char> {
    match rest {
        Some(rest) => seq!['.'] + rest,
        None => seq![],
    }
}

proof fn lemma_with_tail(name: Seq<char>, stars: nat, rest: Option<Seq<char>>)
    requires
        is_name(name),
    ensures
        path_steps(starred(name, stars) + tail_of(rest)) == seq![
            StepModel { name: encode_utf8(name), stars },
        ] + (match rest {
            Some(rest) => path_steps(rest),
            None => Seq::<StepModel>::empty(),
        }),
{
    lemma_starred(name, stars);
    let first = starred(name, stars);
    match rest {
        Some(rest) => {
            lemma_dot_parts(first, rest);
            assert(first + (seq!['.'] + rest) =~= first + seq!['.'] + rest);
        },
        None => {
            lemma_dot_parts(first, Seq::empty());
            assert(first + Seq::<char>::empty() =~= first);
            assert(path_steps(first) =~= seq![StepModel { name: encode_utf8(name), stars }]
                + Seq::<StepModel>::empty());
        },
    }
}

/// A `[*]` stands for every element of an array, in turn: one more element adds
/// what the path without this `[*]` finds in it, an array without elements has
/// nothing to find, and what is no array neither.
pub proof fn a_star_stands_for_every_element(
    entries: Seq<(Seq<char>, DocModel)>,
    i: int,
    items: Seq<DocModel>,
    last: DocModel,
    stars: nat,
    rest: Option<Seq<char>>,
)
    requires
        distinct_keys(entries),
        0 <= i < entries.len(),
        is_name(entries[i].0),
    ensures
        ({
            let name = entries[i].0;
            let holding = |v: DocModel| DocModel::Object(entries.update(i, (name, v)));
            let path = starred(name, stars) + tail_of(rest);
            let more = starred(name, stars + 1) + tail_of(rest);
            &&& values_of(holding(DocModel::Array(items.push(last))), more) == values_of(
                holding(DocModel::Array(items)),
                more,
            ) + values_of(holding(last), path)
            &&& values_of(holding(DocModel::Array(Seq::empty())), more) == Seq::<DocModel>::empty()
            &&& !(last is Array) ==> values_of(holding(last), more) == Seq::<DocModel>::empty()
        }),
{
    let name = entries[i].0;
    let holding = |v: DocModel| DocModel::Object(entries.update(i, (name, v)));
    let path = starred(name, stars) + tail_of(rest);
    let more = starred(name, stars + 1) + tail_of(rest);
    let on = match rest {
        Some(rest) => path_steps(rest),
        None => Seq::<StepModel>::empty(),
    };
    lemma_with_tail(name, stars, rest);
    lemma_with_tail(name, stars + 1, rest);
    assert(path_steps(path).skip(1) =~= on);
    assert(path_steps(more).skip(1) =~= on);
    let full = DocModel::Array(items.push(last));
    let less = DocModel::Array(items);
    let none = DocModel::Array(Seq::empty());
    lemma_holding(entries, i, full);
    lemma_holding(entries, i, less);
    lemma_holding(entries, i, none);
    lemma_holding(entries, i, last);
    let a = all_elements(items, stars, items.len());
    let b = elements(last, stars);
    lemma_elements_front(items, last, stars, items.len());
    assert(items.push(last)[items.len() as int] == last);
    assert(all_elements(items.push(last), stars, (items.len() + 1) as nat) == a + b);
    assert(elements(full, stars + 1) == a + b);
    assert(elements(less, stars + 1) == a);
    lemma_values_pieces(a, b, on, b.len());
    assert(all_elements(Seq::<DocModel>::empty(), stars, 0) =~= Seq::<DocModel>::empty());
    assert(all_values(Seq::<DocModel>::empty(), on, 0) =~= Seq::<DocModel>::empty());
}

proof fn lemma_holding(entries: Seq<(Seq<char>, DocModel)>, i: int, value: DocModel)
    requires
        distinct_keys(entries),
        0 <= i < entries.len(),
    ensures
        named(
            DocModel::Object(entries.update(i, (entries[i].0, value))),
            encode_utf8(entries[i].0),
        ) == Some(value),
{
    let now = entries.update(i, (entries[i].0, value));
    assert forall|a: int, b: int| 0 <= a < b < now.len() implies (#[trigger] now[a]).0 != (
    #[trigger] now[b]).0 by {
        assert(now[a].0 == entries[a].0 && now[b].0 == entries[b].0);
    }
    lemma_field_there(now, i);
}

/// A path of plain names leads to one value, which is its value; one with a
/// `[*]` has none.
pub proof fn only_a_plain_path_has_a_value(m: DocModel, parts: Seq<(Seq<char>, nat)>)
    requires
        parts.len() > 0,
        forall|i: int| 0 <= i < parts.len() ==> is_name((#[trigger] parts[i]).0),
    ensures
        (forall|i: int| 0 <= i < parts.len() ==> (#[trigger] parts[i]).1 == 0) ==> values_of(
            m,
            dotted(parts),
        ) == seq![value_of(m, dotted(parts))],
        (exists|i: int| 0 <= i < parts.len() && (#[trigger] parts[i]).1 > 0) ==> value_of(
            m,
            dotted(parts),
        ) == DocModel::Null,
{
    a_path_reads_as_its_names(parts);
    let path = dotted(parts);
    let steps = path_steps(path);
    reveal(is_plain);
    if forall|i: int| 0 <= i < parts.len() ==> (#[trigger] parts[i]).1 == 0 {
        assert forall|i: int| 0 <= i < steps.len() implies (#[trigger] steps[i]).stars == 0 by {
            assert(parts[i].1 == 0);
        }
        lemma_plain_path(m, steps);
        assert(values_of(m, path) =~= seq![value_of(m, path)]);
    }
    if exists|i: int| 0 <= i < parts.len() && (#[trigger] parts[i]).1 > 0 {
        let i = choose|i: int| 0 <= i < parts.len() && (#[trigger] parts[i]).1 > 0;
        assert(steps[i].stars > 0);
    }
}

} // verus!

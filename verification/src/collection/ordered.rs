//! Finding documents by reading an index in the order of the sort.

use super::apply::{contents_of, stored_in};
use super::find::{
    are_all_matches, are_matches, come_first, is_among, is_answer, leads, lemma_readable,
};
use super::state::{collection_docs, entries_at, sound, sound_with, Docs, Owners};
use crate::catalog::entry::IndexModel;
use crate::catalog::{exists_in, indexes_of, lemma_position, position, Catalog, CollectionModel, IndexMeta};
use crate::data::{record_at, Records};
use crate::document::{DocId, DocModel, Document};
use crate::error::IoResult;
use crate::filter::{
    comes_before, found_models, in_order, insert_in_order, is_unordered, meets_all,
    sort_order_is_strict, sorted_as, unordered, Filter, FilterModel, Found, SortModel, SortOrder,
};
use crate::index::btree::BTreeIndex;
use crate::index::entries::{in_range, sorted};
use crate::index::key::{
    self, compound_keys_split_back, compound_part, key_id, key_parts, key_takes_apart, key_value,
    values_key, MAX_COMPOUND_FIELDS, TAG_OTHER,
};
use crate::index::node::entry_models;
use crate::index::part::{is_end, walk_part};
use crate::index::range::RangeModel;
use crate::index::tree::{has_tree, tree_at, Entry};
use crate::index::Index;
use crate::order::{bytes_lt, lemma_lt_irreflexive};
use crate::bytes::bytes_equal;
use crate::ordering::{
    in_reach, key_order_is_sort_order, lemma_next_parts, lemma_only_key, serves, OrderedRead,
};
use crate::path::{value_of, value_or_null};
use crate::query::Relation;
use crate::secondary::{doc_has_key, field_values_of};
use crate::storage::{PageId, PageStore, RecordLocation};
use vstd::prelude::*;
use vstd::slice::slice_to_vec;

verus! {

// ---------------------------------------------------------------------
// Results that come first.

/// Results that come first, and more that come right after them, come first.
proof fn lemma_front_grows(
    held: Map<Seq<u8>, DocModel>,
    filter: FilterModel,
    front: Seq<Found>,
    more: Seq<Found>,
)
    requires
        are_matches(held, filter, front),
        come_first(held, filter, front),
        are_matches(held, filter, more),
        in_order(filter.sort, more),
        forall|i: int| 0 <= i < more.len() ==> !is_among(front, (#[trigger] more[i]).0),
        forall|id: Seq<u8>, i: int|
            #![trigger held.dom().contains(id), more[i]]
            held.dom().contains(id) && meets_all(filter.conditions, held[id]) && !is_among(
                front,
                id,
            ) && !is_among(more, id) && 0 <= i < more.len() ==> comes_before(
                filter.sort,
                more[i],
                (id, held[id]),
            ),
    ensures
        are_matches(held, filter, front + more),
        come_first(held, filter, front + more),
        forall|id: Seq<u8>| #[trigger]
            is_among(front + more, id) <==> is_among(front, id) || is_among(more, id),
{
    let whole = front + more;
    let n = front.len() as int;
    assert forall|id: Seq<u8>| #[trigger] is_among(whole, id) <==> is_among(front, id) || is_among(
        more,
        id,
    ) by {
        if is_among(whole, id) {
            let i = choose|i: int| 0 <= i < whole.len() && (#[trigger] whole[i]).0 == id;
            if i < n {
                assert(front[i].0 == id);
            } else {
                assert(more[i - n].0 == id);
            }
        }
        if is_among(front, id) {
            let i = choose|i: int| 0 <= i < front.len() && (#[trigger] front[i]).0 == id;
            assert(whole[i].0 == id);
        }
        if is_among(more, id) {
            let i = choose|i: int| 0 <= i < more.len() && (#[trigger] more[i]).0 == id;
            assert(whole[i + n].0 == id);
        }
    }
    assert forall|i: int| 0 <= i < whole.len() implies held.dom().contains((#[trigger] whole[i]).0)
        && held[whole[i].0] == whole[i].1 && meets_all(filter.conditions, whole[i].1) by {
        if i < n {
            assert(whole[i] == front[i]);
        } else {
            assert(whole[i] == more[i - n]);
        }
    }
    assert forall|i: int, j: int| 0 <= i < j < whole.len() implies comes_before(
        filter.sort,
        #[trigger] whole[i],
        #[trigger] whole[j],
    ) && whole[i].0 != whole[j].0 by {
        if j < n {
            assert(whole[i] == front[i] && whole[j] == front[j]);
        } else if i >= n {
            assert(whole[i] == more[i - n] && whole[j] == more[j - n]);
        } else {
            assert(whole[i] == front[i] && whole[j] == more[j - n]);
            assert(held.dom().contains(more[j - n].0));
            assert(!is_among(front, more[j - n].0));
            if front[i].0 == more[j - n].0 {
                assert(is_among(front, more[j - n].0));
            }
        }
    }
    assert forall|id: Seq<u8>, i: int|
        #![trigger held.dom().contains(id), whole[i]]
        held.dom().contains(id) && meets_all(filter.conditions, held[id]) && !is_among(whole, id)
            && 0 <= i < whole.len() implies comes_before(
        filter.sort,
        whole[i],
        (id, held[id]),
    ) by {
        assert(!is_among(front, id) && !is_among(more, id));
        if i < n {
            assert(whole[i] == front[i]);
        } else {
            assert(whole[i] == more[i - n]);
        }
    }
}

/// The first results of those that come first are an answer once there are as
/// many as wanted.
proof fn lemma_front_cut(
    held: Map<Seq<u8>, DocModel>,
    filter: FilterModel,
    front: Seq<Found>,
    n: int,
)
    requires
        are_matches(held, filter, front),
        come_first(held, filter, front),
        0 <= n <= front.len(),
        filter.limit matches Some(limit) && (n == limit || n < limit && n == front.len()
            && are_all_matches(held, filter, front)),
    ensures
        is_answer(held, filter, front.take(n)),
{
    let cut = front.take(n);
    assert forall|i: int| 0 <= i < cut.len() implies (#[trigger] cut[i]) == front[i] by {}
    if n == front.len() {
        assert(cut =~= front);
    }
    assert forall|id: Seq<u8>, i: int|
        #![trigger held.dom().contains(id), cut[i]]
        held.dom().contains(id) && meets_all(filter.conditions, held[id]) && !is_among(cut, id)
            && 0 <= i < cut.len() implies comes_before(filter.sort, cut[i], (id, held[id])) by {
        assert(cut[i] == front[i]);
        if is_among(front, id) {
            let j = choose|j: int| 0 <= j < front.len() && (#[trigger] front[j]).0 == id;
            if j < n {
                assert(cut[j].0 == id);
            }
            assert(comes_before(filter.sort, front[i], front[j]));
        }
    }
}

// ---------------------------------------------------------------------
// The entries, in the order they are read.

/// The document an entry leads to.
spec fn doc_of(docs: Docs, e: Entry) -> DocModel {
    docs[key_id(e.0)].1
}

/// Whether entries lead to documents, each to another, and are in the order of
/// their parts, which are the encodings of the documents' values.
#[verifier::opaque]
spec fn listed(
    docs: Docs,
    all: Seq<Entry>,
    parts: Seq<Seq<u8>>,
    field: Seq<char>,
    fields: int,
) -> bool {
    &&& parts.len() == all.len()
    &&& 1 <= fields <= MAX_COMPOUND_FIELDS
    &&& forall|i: int|
        0 <= i < all.len() ==> docs.dom().contains(key_id((#[trigger] all[i]).0)) && docs[key_id(
            all[i].0,
        )].0 == all[i].1 && parts[i] == compound_part(value_of(doc_of(docs, all[i]), field), fields)
            && (fields == 1 ==> !unordered(value_of(doc_of(docs, all[i]), field)))
    &&& forall|i: int, j: int|
        0 <= i < j < all.len() ==> key_id((#[trigger] all[i]).0) != key_id((#[trigger] all[j]).0)
    &&& forall|i: int, j: int|
        0 <= i < j < parts.len() ==> (#[trigger] parts[i]) == (#[trigger] parts[j]) || bytes_lt(
            parts[i],
            parts[j],
        )
}

/// Which entry is read `i`th: backward, those before `split` from last to
/// first, then the others.
spec fn turned(i: int, split: int, backward: bool) -> int {
    if backward && i < split {
        split - 1 - i
    } else {
        i
    }
}

/// Whether entries from `split` on are those whose value has no order.
spec fn splits(parts: Seq<Seq<u8>>, split: int) -> bool {
    &&& 0 <= split <= parts.len()
    &&& forall|i: int| 0 <= i < split ==> (#[trigger] parts[i]) != seq![TAG_OTHER]
    &&& forall|i: int| split <= i < parts.len() ==> (#[trigger] parts[i]) == seq![TAG_OTHER]
}

/// The direction of a sort.
spec fn backward_of(filter: FilterModel) -> bool {
    filter.sort[0].order == SortOrder::Desc
}

/// Of two entries with different parts, the one read first comes first.
proof fn lemma_read_order(
    docs: Docs,
    all: Seq<Entry>,
    parts: Seq<Seq<u8>>,
    fields: int,
    filter: FilterModel,
    split: int,
    a: int,
    b: int,
)
    requires
        listed(docs, all, parts, filter.sort[0].field, fields),
        splits(parts, split),
        0 <= a < b < all.len(),
    ensures
        ({
            let x = turned(a, split, backward_of(filter));
            let y = turned(b, split, backward_of(filter));
            let field = filter.sort[0].field;
            parts[x] == parts[y] || sorted_as(
                filter.sort[0].order,
                value_of(doc_of(docs, all[x]), field),
                value_of(doc_of(docs, all[y]), field),
            ) == Relation::Less
        }),
{
    reveal(listed);
    let x = turned(a, split, backward_of(filter));
    let y = turned(b, split, backward_of(filter));
    let field = filter.sort[0].field;
    let u = value_of(doc_of(docs, all[x]), field);
    let v = value_of(doc_of(docs, all[y]), field);
    assert(parts[x] == compound_part(u, fields));
    assert(parts[y] == compound_part(v, fields));
    if parts[x] != parts[y] {
        if x < y {
            assert(bytes_lt(parts[x], parts[y]));
            key_order_is_sort_order(u, v, fields);
            if backward_of(filter) {
                // Only what has no order is read forward.
                assert(y >= split);
                if !unordered(v) {
                    assert(parts[y] == seq![TAG_OTHER]);
                    assert(parts[y][0] == TAG_OTHER);
                }
            }
        } else {
            assert(bytes_lt(parts[y], parts[x]));
            key_order_is_sort_order(v, u, fields);
            assert(x < split);
            if unordered(u) {
                assert(parts[x] =~= seq![TAG_OTHER]);
            }
        }
    }
}

/// Whether an entry read in `[from, to)` leads to a document.
spec fn read_in(
    all: Seq<Entry>,
    split: int,
    backward: bool,
    from: int,
    to: int,
    id: Seq<u8>,
) -> bool {
    exists|i: int|
        from <= i < to && #[trigger] read_id(all, split, backward, i) == id
}

/// The document the entry read `i`th leads to.
spec fn read_id(all: Seq<Entry>, split: int, backward: bool, i: int) -> Seq<u8> {
    key_id(all[turned(i, split, backward)].0)
}

/// Whether a run of entries with one part ends at `to`.
spec fn is_run(
    parts: Seq<Seq<u8>>,
    split: int,
    backward: bool,
    from: int,
    to: int,
) -> bool {
    &&& from < to <= parts.len()
    &&& forall|i: int|
        from <= i < to ==> parts[#[trigger] turned(i, split, backward)] == parts[turned(
            from,
            split,
            backward,
        )]
    &&& to < parts.len() ==> parts[turned(to, split, backward)] != parts[turned(
        from,
        split,
        backward,
    )]
}

/// What is in a run comes before what is read after it.
proof fn lemma_run_before(
    docs: Docs,
    all: Seq<Entry>,
    parts: Seq<Seq<u8>>,
    fields: int,
    filter: FilterModel,
    split: int,
    from: int,
    to: int,
    g: int,
    j: int,
)
    requires
        filter.sort.len() > 0,
        listed(docs, all, parts, filter.sort[0].field, fields),
        splits(parts, split),
        0 <= from,
        is_run(parts, split, backward_of(filter), from, to),
        from <= g < to,
        to <= j < all.len(),
    ensures
        sorted_as(
            filter.sort[0].order,
            value_of(doc_of(docs, all[turned(g, split, backward_of(filter))]), filter.sort[0].field),
            value_of(doc_of(docs, all[turned(j, split, backward_of(filter))]), filter.sort[0].field),
        ) == Relation::Less,
{
    let w = backward_of(filter);
    let field = filter.sort[0].field;
    assert(parts.len() == all.len()) by {
        reveal(listed);
    }
    let x = turned(g, split, w);
    let y = turned(j, split, w);
    let z = turned(to, split, w);
    lemma_read_order(docs, all, parts, fields, filter, split, g, j);
    if parts[x] == parts[y] {
        assert(parts[x] != parts[z]);
        lemma_read_order(docs, all, parts, fields, filter, split, g, to);
        lemma_read_order(docs, all, parts, fields, filter, split, to, j);
        crate::filter::lemma_sorted_as(
            filter.sort[0].order,
            value_of(doc_of(docs, all[x]), field),
            value_of(doc_of(docs, all[z]), field),
            value_of(doc_of(docs, all[y]), field),
        );
    }
}

/// The entries in a range are in order too.
proof fn lemma_in_range_sorted(entries: Seq<Entry>, range: RangeModel)
    requires
        sorted(entries),
    ensures
        sorted(in_range(entries, range)),
    decreases entries.len(),
{
    let pred = |e: Entry| range.has(e.0);
    reveal(Seq::filter);
    if entries.len() > 0 {
        let front = entries.drop_last();
        let last = entries.last();
        lemma_in_range_sorted(front, range);
        let few = front.filter(pred);
        let all = entries.filter(pred);
        assert forall|i: int, j: int| 0 <= i < j < all.len() implies bytes_lt(
            (#[trigger] all[i]).0,
            (#[trigger] all[j]).0,
        ) by {
            if j < few.len() {
                assert(all[i] == few[i] && all[j] == few[j]);
            } else {
                assert(all[i] == few[i] && all[j] == last);
                assert(few.contains(few[i]));
                front.lemma_filter_contains_rev(pred, few[i]);
                let k = choose|k: int| 0 <= k < front.len() && front[k] == few[i];
                assert(entries[k] == few[i]);
            }
        }
    }
}

/// The part of a key that the sort goes by.
spec fn part_of(key: Seq<u8>, at: int) -> Seq<u8> {
    key_parts(key_value(key))[at]
}

/// Whether entries lead to every match they should.
spec fn reaches(
    docs: Docs,
    all: Seq<Entry>,
    filter: FilterModel,
    whole: bool,
) -> bool {
    forall|id: Seq<u8>| #[trigger]
        docs.dom().contains(id) && meets_all(filter.conditions, docs[id].1) && (whole || !unordered(
            value_of(docs[id].1, filter.sort[0].field),
        )) ==> led(all, id)
}

/// Whether an entry leads to a document.
spec fn led(all: Seq<Entry>, id: Seq<u8>) -> bool {
    exists|i: int| 0 <= i < all.len() && key_id((#[trigger] all[i]).0) == id
}

/// What is known of one entry in the range.
proof fn lemma_entry(
    pages: Map<PageId, Seq<u8>>,
    docs: Docs,
    index: IndexModel,
    filter: FilterModel,
    read: OrderedRead,
    e: Entry,
)
    requires
        leads(pages, docs, index),
        serves(filter, index, read),
        entries_at(pages, index.root).contains(e),
        docs.dom().contains(key_id(e.0)) ==> key_id(e.0).len() == 16,
    ensures
        docs.dom().contains(key_id(e.0)),
        docs[key_id(e.0)].0 == e.1,
        e.0 == values_key(field_values_of(doc_of(docs, e), index)) + key_id(e.0),
        part_of(e.0, read.fixed as int) == compound_part(
            value_of(doc_of(docs, e), filter.sort[0].field),
            index.fields.len() as int,
        ),
        key_parts(key_value(e.0)).len() == index.fields.len(),
        index.fields.len() == 1 ==> !unordered(
            value_of(doc_of(docs, e), filter.sort[0].field),
        ),
{
    let id = key_id(e.0);
    let m = doc_of(docs, e);
    let found = field_values_of(m, index);
    lemma_only_key(m, index, id, e.0);
    key_takes_apart(values_key(found), id);
    compound_keys_split_back(found, index.fields.len() as int);
    assert(found[read.fixed as int] == value_of(m, filter.sort[0].field));
}

proof fn lemma_listed(
    pages: Map<PageId, Seq<u8>>,
    docs: Docs,
    index: IndexModel,
    filter: FilterModel,
    read: OrderedRead,
    all: Seq<Entry>,
)
    requires
        leads(pages, docs, index),
        serves(filter, index, read),
        all == in_range(entries_at(pages, index.root), read.range@),
        forall|id: Seq<u8>| #[trigger] docs.dom().contains(id) ==> id.len() == 16,
    ensures
        listed(
            docs,
            all,
            Seq::new(all.len(), |i: int| part_of(all[i].0, read.fixed as int)),
            filter.sort[0].field,
            index.fields.len() as int,
        ),
        reaches(docs, all, filter, read.whole),
        forall|i: int|
            0 <= i < all.len() ==> key_parts(key_value((#[trigger] all[i]).0)).len()
                == index.fields.len(),
{
    let entries = entries_at(pages, index.root);
    let n = index.fields.len() as int;
    let field = filter.sort[0].field;
    let parts = Seq::new(all.len(), |i: int| part_of(all[i].0, read.fixed as int));
    let pred = |e: Entry| read.range@.has(e.0);
    reveal(listed);
    lemma_in_range_sorted(entries, read.range@);
    assert forall|i: int| 0 <= i < all.len() implies entries.contains(#[trigger] all[i])
        && read.range@.has(all[i].0) by {
        assert(all.contains(all[i]));
        entries.lemma_filter_contains_rev(pred, all[i]);
    }
    assert forall|i: int| 0 <= i < all.len() implies docs.dom().contains(
        key_id((#[trigger] all[i]).0),
    ) && docs[key_id(all[i].0)].0 == all[i].1 && parts[i] == compound_part(
        value_of(doc_of(docs, all[i]), field),
        n,
    ) && (n == 1 ==> !unordered(value_of(doc_of(docs, all[i]), field))) && key_parts(
        key_value(all[i].0),
    ).len() == n by {
        assert(entries.contains(all[i]));
        lemma_entry(pages, docs, index, filter, read, all[i]);
    }
    assert forall|i: int, j: int| 0 <= i < j < all.len() implies key_id((#[trigger] all[i]).0)
        != key_id((#[trigger] all[j]).0) by {
        lemma_entry(pages, docs, index, filter, read, all[i]);
        lemma_entry(pages, docs, index, filter, read, all[j]);
        lemma_lt_irreflexive(all[i].0);
    }
    assert forall|i: int, j: int| 0 <= i < j < parts.len() implies (#[trigger] parts[i]) == (
    #[trigger] parts[j]) || bytes_lt(parts[i], parts[j]) by {
        lemma_entry(pages, docs, index, filter, read, all[i]);
        lemma_entry(pages, docs, index, filter, read, all[j]);
        lemma_next_parts(
            field_values_of(doc_of(docs, all[i]), index),
            field_values_of(doc_of(docs, all[j]), index),
            read.values@,
            n,
            key_id(all[i].0),
            key_id(all[j].0),
        );
        assert(field_values_of(doc_of(docs, all[i]), index)[read.fixed as int] == value_of(
            doc_of(docs, all[i]),
            field,
        ));
        assert(field_values_of(doc_of(docs, all[j]), index)[read.fixed as int] == value_of(
            doc_of(docs, all[j]),
            field,
        ));
    }
    assert forall|id: Seq<u8>| #[trigger]
        docs.dom().contains(id) && meets_all(filter.conditions, docs[id].1) && (read.whole
            || !unordered(value_of(docs[id].1, field))) implies led(all, id) by {
        let m = docs[id].1;
        assert(in_reach(filter, index, read, m, id));
        let key = values_key(field_values_of(m, index)) + id;
        assert(doc_has_key(m, index, id, key));
        let e = (key, docs[id].0);
        assert(entries.contains(e));
        let k = choose|k: int| 0 <= k < entries.len() && entries[k] == e;
        entries.lemma_filter_contains(pred, k);
        let i = choose|i: int| 0 <= i < all.len() && all[i] == e;
        key_takes_apart(values_key(field_values_of(m, index)), id);
        assert(key_id(all[i].0) == id);
    }
}

// ---------------------------------------------------------------------
// Reading.

/// The parts that the sort goes by, and where those without an order begin.
fn sort_parts(
    entries: &Vec<(Vec<u8>, RecordLocation)>,
    at: usize,
    docs: Ghost<Docs>,
    field: Ghost<Seq<char>>,
    fields: Ghost<int>,
) -> (r: (Vec<Vec<u8>>, usize))
    ensures
        ({
            let all = entry_models(entries@);
            let parts = Seq::new(all.len(), |i: int| part_of(all[i].0, at as int));
            (forall|i: int|
                0 <= i < all.len() ==> at < key_parts(key_value((#[trigger] all[i]).0)).len())
                && listed(docs@, all, parts, field@, fields@) ==> byte_views(r.0@) == parts
                && splits(parts, r.1 as int)
        }),
        r.0@.len() == entries@.len(),
        r.1 <= entries@.len(),
{
    let ghost all = entry_models(entries@);
    let ghost wanted = Seq::new(all.len(), |i: int| part_of(all[i].0, at as int));
    let ghost good = (forall|i: int|
        0 <= i < all.len() ==> at < key_parts(key_value((#[trigger] all[i]).0)).len()) && listed(
        docs@,
        all,
        wanted,
        field@,
        fields@,
    );
    let mut parts: Vec<Vec<u8>> = Vec::new();
    let n: usize = entries.len();
    let mut split: usize = 0;
    for i in 0..n
        invariant
            n == entries@.len(),
            all == entry_models(entries@),
            wanted == Seq::new(all.len(), |i: int| part_of(all[i].0, at as int)),
            parts@.len() == i,
            split <= i,
            good ==> forall|j: int|
                0 <= j < all.len() ==> at < key_parts(key_value((#[trigger] all[j]).0)).len(),
            good ==> forall|j: int| 0 <= j < i ==> (#[trigger] parts@[j])@ == wanted[j],
            good ==> listed(docs@, all, wanted, field@, fields@),
            good ==> forall|j: int|
                0 <= j < split ==> (#[trigger] wanted[j]) != seq![TAG_OTHER],
            good ==> forall|j: int|
                split <= j < i ==> (#[trigger] wanted[j]) == seq![TAG_OTHER],
    {
        assert(all[i as int].0 == entries@[i as int].0@);
        let found = key::parts(key::value_part(entries[i].0.as_slice()));
        let part: Vec<u8> = if at < found.len() {
            slice_to_vec(found[at])
        } else {
            Vec::new()
        };
        let other: bool = key::is_other(part.as_slice());
        proof {
            if good {
                assert(part@ == wanted[i as int]);
                if split < i {
                    lemma_stays_other(docs@, all, wanted, field@, fields@, split as int, i as int);
                }
                assert(other == (part@ == seq![TAG_OTHER])) by {
                    lemma_is_other(docs@, all, wanted, field@, fields@, i as int);
                }
            }
        }
        if !other {
            split = i + 1;
        }
        parts.push(part);
    }
    proof {
        if good {
            assert(byte_views(parts@) =~= wanted);
        }
    }
    (parts, split)
}

/// The bytes of several vectors.
spec fn byte_views(list: Seq<Vec<u8>>) -> Seq<Seq<u8>> {
    Seq::new(list.len(), |i: int| list[i]@)
}

/// After a part without an order, there are only such parts.
proof fn lemma_stays_other(
    docs: Docs,
    all: Seq<Entry>,
    parts: Seq<Seq<u8>>,
    field: Seq<char>,
    fields: int,
    a: int,
    b: int,
)
    requires
        listed(docs, all, parts, field, fields),
        0 <= a < b < parts.len(),
        parts[a] == seq![TAG_OTHER],
    ensures
        parts[b] == seq![TAG_OTHER],
{
    reveal(listed);
    if parts[b] != parts[a] {
        let v = value_of(doc_of(docs, all[b]), field);
        assert(parts[b] == compound_part(v, fields));
        assert(bytes_lt(parts[a], parts[b]));
        let u = value_of(doc_of(docs, all[a]), field);
        assert(parts[a] == compound_part(u, fields));
        key_order_is_sort_order(u, v, fields);
        assert(parts[a][0] == TAG_OTHER);
    }
}

/// Only a part without an order begins with its tag.
proof fn lemma_is_other(
    docs: Docs,
    all: Seq<Entry>,
    parts: Seq<Seq<u8>>,
    field: Seq<char>,
    fields: int,
    i: int,
)
    requires
        listed(docs, all, parts, field, fields),
        0 <= i < parts.len(),
    ensures
        parts[i].len() > 0,
        parts[i][0] == TAG_OTHER <==> parts[i] == seq![TAG_OTHER],
{
    reveal(listed);
    let v = value_of(doc_of(docs, all[i]), field);
    assert(parts[i] == compound_part(v, fields));
}

/// Which entry is read `i`th.
fn turn(i: usize, split: usize, backward: bool) -> (r: usize)
    ensures
        r == turned(i as int, split as int, backward),
        i < split ==> r < split,
        i >= split ==> r == i,
{
    if backward && i < split {
        split - 1 - i
    } else {
        i
    }
}

/// Where the run of entries with the same part ends that begins at `from`.
fn run_end(parts: &Vec<Vec<u8>>, split: usize, backward: bool, from: usize) -> (to: usize)
    requires
        from < parts@.len(),
        split <= parts@.len(),
    ensures
        is_run(byte_views(parts@), split as int, backward, from as int, to as int),
        from < to <= parts@.len(),
{
    let n: usize = parts.len();
    let ghost views = byte_views(parts@);
    let first: usize = turn(from, split, backward);
    let mut to: usize = from + 1;
    while to < n
        invariant
            n == parts@.len(),
            views == byte_views(parts@),
            split <= n,
            from < to <= n,
            first == turned(from as int, split as int, backward),
            first < n,
            forall|i: int|
                from <= i < to ==> views[#[trigger] turned(i, split as int, backward)]
                    == views[first as int],
        ensures
            to <= n,
            to < n ==> views[turned(to as int, split as int, backward)] != views[first as int],
        decreases n - to,
    {
        let next: usize = turn(to, split, backward);
        if !bytes_equal(parts[next].as_slice(), parts[first].as_slice()) {
            break ;
        }
        to += 1;
    }
    to
}

/// Whether a document is wanted: a match, and if only those are, one whose
/// value has no order.
spec fn wanted(filter: FilterModel, only: bool, m: DocModel) -> bool {
    meets_all(filter.conditions, m) && (only ==> unordered(value_of(m, filter.sort[0].field)))
}

/// Whether documents are the wanted ones of the entries read in `[from, to)`.
spec fn run_found(
    held: Map<Seq<u8>, DocModel>,
    filter: FilterModel,
    only: bool,
    all: Seq<Entry>,
    split: int,
    backward: bool,
    from: int,
    to: int,
    found: Seq<Found>,
) -> bool {
    &&& are_matches(held, filter, found)
    &&& in_order(filter.sort, found)
    &&& forall|i: int|
        0 <= i < found.len() ==> read_in(
            all,
            split,
            backward,
            from,
            to,
            (#[trigger] found[i]).0,
        ) && wanted(filter, only, found[i].1)
    &&& forall|i: int|
        from <= i < to && wanted(
            filter,
            only,
            held[#[trigger] read_id(all, split, backward, i)],
        ) ==> is_among(found, read_id(all, split, backward, i))
}

/// One more document of a run, put where it belongs.
proof fn lemma_run_grows(
    held: Map<Seq<u8>, DocModel>,
    filter: FilterModel,
    only: bool,
    all: Seq<Entry>,
    split: int,
    backward: bool,
    from: int,
    i: int,
    found: Seq<Found>,
    now: Seq<Found>,
    one: Found,
)
    requires
        run_found(held, filter, only, all, split, backward, from, i, found),
        from <= i,
        read_id(all, split, backward, i) == one.0,
        held.dom().contains(one.0),
        held[one.0] == one.1,
        wanted(filter, only, one.1),
        in_order(filter.sort, now),
        !is_among(found, one.0),
        exists|k: int| 0 <= k <= found.len() && now == #[trigger] found.insert(k, one),
    ensures
        run_found(held, filter, only, all, split, backward, from, i + 1, now),
{
    let k = choose|k: int| 0 <= k <= found.len() && now == #[trigger] found.insert(k, one);
    assert forall|a: int| 0 <= a < now.len() implies held.dom().contains((#[trigger] now[a]).0)
        && held[now[a].0] == now[a].1 && meets_all(filter.conditions, now[a].1) && read_in(
        all,
        split,
        backward,
        from,
        i + 1,
        now[a].0,
    ) && wanted(filter, only, now[a].1) by {
        if a == k {
            assert(now[a] == one);
            assert(read_id(all, split, backward, i) == one.0);
        } else {
            let b = if a < k {
                a
            } else {
                a - 1
            };
            assert(now[a] == found[b]);
            assert(read_in(all, split, backward, from, i, found[b].0));
            let c = choose|c: int|
                from <= c < i && #[trigger] read_id(all, split, backward, c) == found[b].0;
            assert(read_id(all, split, backward, c) == now[a].0);
        }
    }
    assert forall|a: int, b: int| 0 <= a < b < now.len() implies (#[trigger] now[a]).0 != (
    #[trigger] now[b]).0 by {
        sort_order_is_strict(filter.sort, now[a], now[b], now[a]);
        let x = if a < k {
            a
        } else {
            a - 1
        };
        let y = if b < k {
            b
        } else {
            b - 1
        };
        if a == k {
            assert(now[b] == found[y] && now[a] == one);
        } else if b == k {
            assert(now[a] == found[x] && now[b] == one);
        } else {
            assert(now[a] == found[x] && now[b] == found[y]);
        }
    }
    assert forall|j: int|
        from <= j < i + 1 && wanted(
            filter,
            only,
            held[#[trigger] read_id(all, split, backward, j)],
        ) implies is_among(now, read_id(all, split, backward, j)) by {
        if j == i {
            assert(now[k] == one);
        } else {
            let id = read_id(all, split, backward, j);
            assert(is_among(found, id));
            let a = choose|a: int| 0 <= a < found.len() && (#[trigger] found[a]).0 == id;
            if a < k {
                assert(now[a] == found[a]);
            } else {
                assert(now[a + 1] == found[a]);
            }
        }
    }
}

/// Entries lead to documents that can be read, each to another.
#[verifier::opaque]
spec fn readable(
    pages: Map<PageId, Seq<u8>>,
    held: Map<Seq<u8>, DocModel>,
    all: Seq<Entry>,
) -> bool {
    &&& forall|i: int|
        0 <= i < all.len() ==> held.dom().contains(key_id((#[trigger] all[i]).0)) && record_at(
            pages,
            all[i].1,
        ) == Some((key_id(all[i].0), held[key_id(all[i].0)]))
    &&& forall|i: int, j: int|
        0 <= i < j < all.len() ==> key_id((#[trigger] all[i]).0) != key_id((#[trigger] all[j]).0)
}

/// Another entry leads to another document.
proof fn lemma_not_read(
    pages: Map<PageId, Seq<u8>>,
    held: Map<Seq<u8>, DocModel>,
    all: Seq<Entry>,
    split: int,
    backward: bool,
    from: int,
    to: int,
    i: int,
)
    requires
        readable(pages, held, all),
        0 <= split <= all.len(),
        0 <= from <= to <= all.len(),
        0 <= i < all.len(),
        !(from <= i < to),
    ensures
        !read_in(all, split, backward, from, to, read_id(all, split, backward, i)),
{
    reveal(readable);
    let id = read_id(all, split, backward, i);
    if read_in(all, split, backward, from, to, id) {
        let j = choose|j: int| from <= j < to && #[trigger] read_id(all, split, backward, j) == id;
        let x = turned(i, split, backward);
        let y = turned(j, split, backward);
        assert(x != y);
        assert(key_id(all[x].0) == key_id(all[y].0));
        if x < y {
            assert(key_id(all[x].0) != key_id(all[y].0));
        } else {
            assert(key_id(all[y].0) != key_id(all[x].0));
        }
    }
}

/// The matches of the entries read in `[from, to)`, sorted; if `only`, those
/// whose value has no order.
fn read_run<S: PageStore>(
    records: &mut Records<S>,
    entries: &Vec<(Vec<u8>, RecordLocation)>,
    split: usize,
    backward: bool,
    from: usize,
    to: usize,
    filter: &Filter,
    only: bool,
    held: Ghost<Map<Seq<u8>, DocModel>>,
) -> (r: IoResult<Vec<(DocId, Document)>>)
    requires
        old(records).wf(),
        split <= entries@.len(),
        from <= to <= entries@.len(),
        filter.sort@.len() > 0,
    ensures
        final(records).wf(),
        final(records).pages() == old(records).pages(),
        final(records).reliable() == old(records).reliable(),
        readable(old(records).pages(), held@, entry_models(entries@)) ==> match r {
            Ok(found) => run_found(
                held@,
                filter@,
                only,
                entry_models(entries@),
                split as int,
                backward,
                from as int,
                to as int,
                found_models(found@),
            ),
            Err(_) => !old(records).reliable(),
        },
{
    let ghost pages = records.pages();
    let ghost all = entry_models(entries@);
    let ghost good = readable(pages, held@, all);
    let mut found: Vec<(DocId, Document)> = Vec::new();
    for i in from..to
        invariant
            from <= to <= entries@.len(),
            filter.sort@.len() > 0,
            split <= entries@.len(),
            all == entry_models(entries@),
            records.wf(),
            records.pages() == pages,
            pages == old(records).pages(),
            records.reliable() == old(records).reliable(),
            good == readable(pages, held@, all),
            good ==> run_found(
                held@,
                filter@,
                only,
                all,
                split as int,
                backward,
                from as int,
                i as int,
                found_models(found@),
            ),
    {
        let at: usize = turn(i, split, backward);
        let loc: RecordLocation = entries[at].1;
        let ghost so_far = found_models(found@);
        proof {
            assert(all[at as int].1 == loc);
            if good {
                reveal(readable);
                assert(held@.dom().contains(key_id(all[at as int].0)));
            }
        }
        let (id, doc) = match records.get(loc) {
            Ok(read) => read,
            Err(e) => return Err(e),
        };
        let field: &str = filter.sort[0].field.as_str();
        assert(filter@.sort[0].field == field@);
        if filter.matches(&doc) && (!only || is_unordered(&value_or_null(&doc, field))) {
            let ghost one = (id@, doc@);
            proof {
                if good {
                    assert(read_id(all, split as int, backward, i as int) == id@);
                    lemma_not_read(
                        pages,
                        held@,
                        all,
                        split as int,
                        backward,
                        from as int,
                        i as int,
                        i as int,
                    );
                    assert forall|a: int| 0 <= a < so_far.len() implies (#[trigger] so_far[a]).0
                        != id@ by {
                        assert(read_in(
                            all,
                            split as int,
                            backward,
                            from as int,
                            i as int,
                            so_far[a].0,
                        ));
                    }
                }
            }
            insert_in_order(&filter.sort, &mut found, (id, doc));
            proof {
                if good {
                    lemma_run_grows(
                        held@,
                        filter@,
                        only,
                        all,
                        split as int,
                        backward,
                        from as int,
                        i as int,
                        so_far,
                        found_models(found@),
                        one,
                    );
                }
            }
        } else {
            proof {
                if good {
                    assert(read_id(all, split as int, backward, i as int) == id@);
                    lemma_run_same(
                        held@,
                        filter@,
                        only,
                        all,
                        split as int,
                        backward,
                        from as int,
                        i as int,
                        so_far,
                    );
                }
            }
        }
    }
    Ok(found)
}

/// One more document of a run that doesn't match.
proof fn lemma_run_same(
    held: Map<Seq<u8>, DocModel>,
    filter: FilterModel,
    only: bool,
    all: Seq<Entry>,
    split: int,
    backward: bool,
    from: int,
    i: int,
    found: Seq<Found>,
)
    requires
        run_found(held, filter, only, all, split, backward, from, i, found),
        !wanted(filter, only, held[read_id(all, split, backward, i)]),
    ensures
        run_found(held, filter, only, all, split, backward, from, i + 1, found),
{
    assert forall|a: int| 0 <= a < found.len() implies read_in(
        all,
        split,
        backward,
        from,
        i + 1,
        (#[trigger] found[a]).0,
    ) by {
        assert(read_in(all, split, backward, from, i, found[a].0));
        let c = choose|c: int|
            from <= c < i && #[trigger] read_id(all, split, backward, c) == found[a].0;
        assert(read_id(all, split, backward, c) == found[a].0);
    }
}

// ---------------------------------------------------------------------
// The whole of it.

/// Whether results are what the first `n` entries give, and come first.
#[verifier::opaque]
spec fn front_at(
    held: Map<Seq<u8>, DocModel>,
    filter: FilterModel,
    all: Seq<Entry>,
    split: int,
    n: int,
    found: Seq<Found>,
) -> bool {
    &&& are_matches(held, filter, found)
    &&& come_first(held, filter, found)
    &&& forall|i: int|
        0 <= i < found.len() ==> read_in(
            all,
            split,
            backward_of(filter),
            0,
            n,
            (#[trigger] found[i]).0,
        )
    &&& forall|i: int|
        0 <= i < n && meets_all(
            filter.conditions,
            held[#[trigger] read_id(all, split, backward_of(filter), i)],
        ) ==> is_among(found, read_id(all, split, backward_of(filter), i))
}

/// What the sort puts first comes first.
proof fn lemma_less_comes_before(sort: Seq<SortModel>, x: Found, y: Found)
    requires
        sort.len() > 0,
        sorted_as(sort[0].order, value_of(x.1, sort[0].field), value_of(y.1, sort[0].field))
            == Relation::Less,
    ensures
        comes_before(sort, x, y),
{
}

/// A document is read at one place.
proof fn lemma_read_at(all: Seq<Entry>, split: int, backward: bool, i: int)
    requires
        0 <= split <= all.len(),
        0 <= i < all.len(),
    ensures
        0 <= turned(i, split, backward) < all.len(),
        read_id(all, split, backward, turned(i, split, backward)) == key_id(all[i].0),
{
    assert(turned(turned(i, split, backward), split, backward) == i);
}

/// What a run gives comes before the matches that weren't read.
proof fn lemma_run_then_rest(
    held: Map<Seq<u8>, DocModel>,
    docs: Docs,
    all: Seq<Entry>,
    parts: Seq<Seq<u8>>,
    fields: int,
    filter: FilterModel,
    whole: bool,
    split: int,
    from: int,
    to: int,
    found: Seq<Found>,
    more: Seq<Found>,
    id: Seq<u8>,
    g: int,
)
    requires
        filter.sort.len() > 0,
        held == contents_of(docs),
        listed(docs, all, parts, filter.sort[0].field, fields),
        reaches(docs, all, filter, whole),
        !whole ==> fields == 1,
        splits(parts, split),
        0 <= from,
        is_run(parts, split, backward_of(filter), from, to),
        front_at(held, filter, all, split, from, found),
        run_found(held, filter, false, all, split, backward_of(filter), from, to, more),
        held.dom().contains(id),
        meets_all(filter.conditions, held[id]),
        !is_among(found, id),
        !is_among(more, id),
        0 <= g < more.len(),
    ensures
        comes_before(filter.sort, more[g], (id, held[id])),
{
    reveal(listed);
    reveal(front_at);
    let w = backward_of(filter);
    let field = filter.sort[0].field;
    assert(read_in(all, split, w, from, to, more[g].0));
    let x = choose|x: int| from <= x < to && #[trigger] read_id(all, split, w, x) == more[g].0;
    let ex = turned(x, split, w);
    assert(doc_of(docs, all[ex]) == held[more[g].0]);
    assert(docs.dom().contains(id) && docs[id].1 == held[id]);
    if led(all, id) {
        let i = choose|i: int| 0 <= i < all.len() && key_id((#[trigger] all[i]).0) == id;
        lemma_read_at(all, split, w, i);
        let j = turned(i, split, w);
        assert(read_id(all, split, w, j) == id);
        if j < from {
            assert(is_among(found, id));
        } else if j < to {
            assert(wanted(filter, false, held[read_id(all, split, w, j)]));
        }
        assert(turned(j, split, w) == i);
        lemma_run_before(docs, all, parts, fields, filter, split, from, to, x, j);
        assert(doc_of(docs, all[i]) == held[id]);
    } else {
        assert(unordered(value_of(held[id], field)));
        assert(!unordered(value_of(doc_of(docs, all[ex]), field)));
    }
    lemma_less_comes_before(filter.sort, more[g], (id, held[id]));
}

proof fn lemma_front_run(
    pages: Map<PageId, Seq<u8>>,
    held: Map<Seq<u8>, DocModel>,
    docs: Docs,
    all: Seq<Entry>,
    parts: Seq<Seq<u8>>,
    fields: int,
    filter: FilterModel,
    whole: bool,
    split: int,
    from: int,
    to: int,
    found: Seq<Found>,
    more: Seq<Found>,
)
    requires
        filter.sort.len() > 0,
        held == contents_of(docs),
        readable(pages, held, all),
        listed(docs, all, parts, filter.sort[0].field, fields),
        reaches(docs, all, filter, whole),
        !whole ==> fields == 1,
        splits(parts, split),
        parts.len() == all.len(),
        0 <= from,
        is_run(parts, split, backward_of(filter), from, to),
        front_at(held, filter, all, split, from, found),
        run_found(held, filter, false, all, split, backward_of(filter), from, to, more),
    ensures
        front_at(held, filter, all, split, to, found + more),
{
    let w = backward_of(filter);
    let now = found + more;
    assert(are_matches(held, filter, found) && come_first(held, filter, found)) by {
        reveal(front_at);
    }
    assert forall|i: int| 0 <= i < more.len() implies !is_among(found, (#[trigger] more[i]).0) by {
        reveal(front_at);
        assert(read_in(all, split, w, from, to, more[i].0));
        let x = choose|x: int| from <= x < to && #[trigger] read_id(all, split, w, x) == more[i].0;
        lemma_not_read(pages, held, all, split, w, 0, from, x);
        if is_among(found, more[i].0) {
            let j = choose|j: int| 0 <= j < found.len() && (#[trigger] found[j]).0 == more[i].0;
            assert(read_in(all, split, w, 0, from, found[j].0));
        }
    }
    assert forall|id: Seq<u8>, i: int|
        #![trigger held.dom().contains(id), more[i]]
        held.dom().contains(id) && meets_all(filter.conditions, held[id]) && !is_among(found, id)
            && !is_among(more, id) && 0 <= i < more.len() implies comes_before(
        filter.sort,
        more[i],
        (id, held[id]),
    ) by {
        lemma_run_then_rest(
            held,
            docs,
            all,
            parts,
            fields,
            filter,
            whole,
            split,
            from,
            to,
            found,
            more,
            id,
            i,
        );
    }
    lemma_front_grows(held, filter, found, more);
    reveal(front_at);
    assert forall|i: int| 0 <= i < now.len() implies read_in(
        all,
        split,
        w,
        0,
        to,
        (#[trigger] now[i]).0,
    ) by {
        if i < found.len() {
            assert(now[i] == found[i]);
            assert(read_in(all, split, w, 0, from, found[i].0));
            let x = choose|x: int|
                0 <= x < from && #[trigger] read_id(all, split, w, x) == found[i].0;
            assert(read_id(all, split, w, x) == now[i].0);
        } else {
            assert(now[i] == more[i - found.len()]);
            assert(read_in(all, split, w, from, to, more[i - found.len()].0));
            let x = choose|x: int|
                from <= x < to && #[trigger] read_id(all, split, w, x) == now[i].0;
            assert(read_id(all, split, w, x) == now[i].0);
        }
    }
    assert forall|i: int|
        0 <= i < to && meets_all(
            filter.conditions,
            held[#[trigger] read_id(all, split, w, i)],
        ) implies is_among(now, read_id(all, split, w, i)) by {
        if i < from {
            assert(is_among(found, read_id(all, split, w, i)));
        } else {
            assert(wanted(filter, false, held[read_id(all, split, w, i)]));
            assert(is_among(more, read_id(all, split, w, i)));
        }
    }
}

/// Once every entry was read, every match they should lead to was found.
proof fn lemma_front_whole(
    held: Map<Seq<u8>, DocModel>,
    docs: Docs,
    all: Seq<Entry>,
    filter: FilterModel,
    whole: bool,
    split: int,
    found: Seq<Found>,
    id: Seq<u8>,
)
    requires
        held == contents_of(docs),
        reaches(docs, all, filter, whole),
        0 <= split <= all.len(),
        front_at(held, filter, all, split, all.len() as int, found),
        held.dom().contains(id),
        meets_all(filter.conditions, held[id]),
        whole || !unordered(value_of(held[id], filter.sort[0].field)),
    ensures
        is_among(found, id),
{
    reveal(front_at);
    assert(docs.dom().contains(id) && docs[id].1 == held[id]);
    assert(led(all, id));
    let i = choose|i: int| 0 <= i < all.len() && key_id((#[trigger] all[i]).0) == id;
    lemma_read_at(all, split, backward_of(filter), i);
    let j = turned(i, split, backward_of(filter));
    assert(read_id(all, split, backward_of(filter), j) == id);
}

/// The matches whose value has no order come after all others.
proof fn lemma_front_rest(
    held: Map<Seq<u8>, DocModel>,
    docs: Docs,
    all: Seq<Entry>,
    parts: Seq<Seq<u8>>,
    filter: FilterModel,
    split: int,
    found: Seq<Found>,
    primary: Seq<Entry>,
    more: Seq<Found>,
)
    requires
        filter.sort.len() > 0,
        held == contents_of(docs),
        listed(docs, all, parts, filter.sort[0].field, 1),
        reaches(docs, all, filter, false),
        0 <= split <= all.len(),
        front_at(held, filter, all, split, all.len() as int, found),
        run_found(held, filter, true, primary, 0, false, 0, primary.len() as int, more),
        forall|id: Seq<u8>| #[trigger] held.dom().contains(id) ==> led(primary, id),
    ensures
        are_matches(held, filter, found + more),
        come_first(held, filter, found + more),
        are_all_matches(held, filter, found + more),
{
    let field = filter.sort[0].field;
    let w = backward_of(filter);
    assert forall|id: Seq<u8>|
        held.dom().contains(id) && meets_all(filter.conditions, held[id]) && !is_among(
            found,
            id,
        ) implies #[trigger] is_among(more, id) by {
        if !unordered(value_of(held[id], field)) {
            lemma_front_whole(held, docs, all, filter, false, split, found, id);
        }
        assert(led(primary, id));
        let i = choose|i: int| 0 <= i < primary.len() && key_id((#[trigger] primary[i]).0) == id;
        assert(read_id(primary, 0, false, i) == id);
        assert(wanted(filter, true, held[read_id(primary, 0, false, i)]));
    }
    assert forall|i: int| 0 <= i < more.len() implies !is_among(found, (#[trigger] more[i]).0) by {
        if is_among(found, more[i].0) {
            reveal(front_at);
            reveal(listed);
            let j = choose|j: int| 0 <= j < found.len() && (#[trigger] found[j]).0 == more[i].0;
            assert(read_in(all, split, w, 0, all.len() as int, found[j].0));
            let x = choose|x: int|
                0 <= x < all.len() && #[trigger] read_id(all, split, w, x) == found[j].0;
            let e = all[turned(x, split, w)];
            assert(!unordered(value_of(doc_of(docs, e), field)));
            assert(wanted(filter, true, more[i].1));
            assert(held[more[i].0] == more[i].1);
        }
    }
    assert(are_matches(held, filter, found) && come_first(held, filter, found)) by {
        reveal(front_at);
    }
    lemma_front_grows(held, filter, found, more);
    let now = found + more;
    assert forall|id: Seq<u8>| #[trigger]
        held.dom().contains(id) && meets_all(filter.conditions, held[id]) implies is_among(
        now,
        id,
    ) by {
        if !is_among(found, id) {
            assert(is_among(more, id));
        }
        assert(is_among(now, id) <==> is_among(found, id) || is_among(more, id));
    }
}

/// Adds results, at most until there are `limit`.
fn add_results(
    found: &mut Vec<(DocId, Document)>,
    more: Vec<(DocId, Document)>,
    limit: usize,
)
    requires
        old(found)@.len() <= limit,
    ensures
        ({
            let whole = found_models(old(found)@) + found_models(more@);
            found_models(final(found)@) == whole.take(
                if whole.len() < limit {
                    whole.len() as int
                } else {
                    limit as int
                },
            )
        }),
{
    let ghost before = found_models(found@);
    let ghost added = found_models(more@);
    let mut rest = more;
    let ghost all = found@ + rest@;
    found.append(&mut rest);
    assert(found_models(found@) =~= before + added);
    if found.len() > limit {
        found.truncate(limit);
    }
    assert(found_models(found@) =~= (before + added).take(found@.len() as int));
}

/// What is known before an index is read in order.
proof fn lemma_ready(
    pages: Map<PageId, Seq<u8>>,
    list: Seq<CollectionModel>,
    name: Seq<char>,
    k: int,
    filter: FilterModel,
    read: OrderedRead,
)
    requires
        sound(pages, list),
        exists_in(list, name),
        0 <= k < indexes_of(list, name).len(),
        serves(filter, indexes_of(list, name)[k], read),
    ensures
        ({
            let c = list[position(list, name) as int];
            let index = indexes_of(list, name)[k];
            let docs = collection_docs(pages, c);
            let all = in_range(entries_at(pages, index.root), read.range@);
            let primary = entries_at(pages, c.meta.index_root);
            &&& has_tree(pages, index.root)
            &&& crate::index::btree::tree_entries(pages, index.root) == Some(
                entries_at(pages, index.root),
            )
            &&& has_tree(pages, c.meta.index_root)
            &&& crate::index::btree::tree_entries(pages, c.meta.index_root) == Some(primary)
            &&& stored_in(pages, list, name) == contents_of(docs)
            &&& listed(
                docs,
                all,
                Seq::new(all.len(), |i: int| part_of(all[i].0, read.fixed as int)),
                filter.sort[0].field,
                index.fields.len() as int,
            )
            &&& reaches(docs, all, filter, read.whole)
            &&& forall|i: int|
                0 <= i < all.len() ==> key_parts(key_value((#[trigger] all[i]).0)).len()
                    == index.fields.len()
            &&& readable(pages, contents_of(docs), all)
            &&& readable(pages, contents_of(docs), primary)
            &&& forall|id: Seq<u8>| #[trigger]
                contents_of(docs).dom().contains(id) ==> led(primary, id)
        }),
{
    lemma_position(list, name);
    let at = position(list, name) as int;
    let own = choose|own: Owners| sound_with(pages, list, own);
    lemma_readable(pages, list, own, at);
    let c = list[at];
    let index = indexes_of(list, name)[k];
    assert(index == c.indexes[k]);
    let docs = collection_docs(pages, c);
    let held = contents_of(docs);
    let all = in_range(entries_at(pages, index.root), read.range@);
    let primary = entries_at(pages, c.meta.index_root);
    assert(leads(pages, docs, c.indexes[k]));
    lemma_listed(pages, docs, index, filter, read, all);
    reveal(listed);
    reveal(readable);
    assert forall|i: int| 0 <= i < all.len() implies held.dom().contains(
        key_id((#[trigger] all[i]).0),
    ) && record_at(pages, all[i].1) == Some((key_id(all[i].0), held[key_id(all[i].0)])) by {
        let pred = |e: Entry| read.range@.has(e.0);
        assert(all.contains(all[i]));
        entries_at(pages, index.root).lemma_filter_contains_rev(pred, all[i]);
    }
    assert forall|i: int| 0 <= i < primary.len() implies held.dom().contains(
        key_id((#[trigger] primary[i]).0),
    ) && key_id(primary[i].0) == primary[i].0 && record_at(pages, primary[i].1) == Some(
        (key_id(primary[i].0), held[key_id(primary[i].0)]),
    ) by {
        assert(primary.contains(primary[i]));
        assert(key_id(primary[i].0) =~= primary[i].0);
    }
    assert forall|i: int, j: int| 0 <= i < j < primary.len() implies key_id(
        (#[trigger] primary[i]).0,
    ) != key_id((#[trigger] primary[j]).0) by {
        lemma_lt_irreflexive(primary[i].0);
    }
    assert forall|id: Seq<u8>| #[trigger] held.dom().contains(id) implies led(primary, id) by {
        let e = (id, docs[id].0);
        assert(primary.contains(e));
        let i = choose|i: int| 0 <= i < primary.len() && primary[i] == e;
        assert(key_id(primary[i].0) == id);
    }
}

// ---------------------------------------------------------------------
// A part of the entries.

/// How many of the entries that are read first are known: all that are there,
/// or, backward, those with an order.
spec fn known(n: int, split: int, backward: bool, complete: bool) -> int {
    if backward && !complete {
        split
    } else {
        n
    }
}

/// Whether some entries, and their parts, are those that are read first of all.
#[verifier::opaque]
spec fn settled(
    all: Seq<Entry>,
    views: Seq<Seq<u8>>,
    whole_split: int,
    some: Seq<Entry>,
    parts: Seq<Seq<u8>>,
    split: int,
    backward: bool,
    complete: bool,
) -> bool {
    &&& views.len() == all.len()
    &&& parts.len() == some.len() <= all.len()
    &&& 0 <= split <= some.len()
    &&& complete ==> some.len() == all.len()
    &&& forall|i: int|
        0 <= i < known(some.len() as int, split, backward, complete) ==> some[#[trigger] turned(
            i,
            split,
            backward,
        )] == all[turned(i, whole_split, backward)] && parts[turned(i, split, backward)]
            == views[turned(i, whole_split, backward)]
}

/// Where the entries whose value has no order begin.
proof fn lemma_splits(
    docs: Docs,
    all: Seq<Entry>,
    parts: Seq<Seq<u8>>,
    field: Seq<char>,
    fields: int,
    n: int,
) -> (split: int)
    requires
        listed(docs, all, parts, field, fields),
        0 <= n <= parts.len(),
    ensures
        splits(parts.take(n), split),
    decreases n,
{
    let first = parts.take(n);
    if n == 0 {
        0
    } else {
        let before = parts.take(n - 1);
        let split = lemma_splits(docs, all, parts, field, fields, n - 1);
        assert forall|i: int| 0 <= i < n - 1 implies before[i] == #[trigger] first[i] by {}
        if split < n - 1 {
            assert(before[split] == parts[split]);
            lemma_stays_other(docs, all, parts, field, fields, split, n - 1);
            split
        } else if parts[n - 1] == seq![TAG_OTHER] {
            split
        } else {
            n
        }
    }
}

/// The parts of the entries at one end.
spec fn end_parts(parts: Seq<Seq<u8>>, n: int, backward: bool) -> Seq<Seq<u8>> {
    if backward {
        parts.skip(parts.len() - n)
    } else {
        parts.take(n)
    }
}

/// What is known of all entries is known of those at one end.
proof fn lemma_end_listed(
    pages: Map<PageId, Seq<u8>>,
    docs: Docs,
    all: Seq<Entry>,
    parts: Seq<Seq<u8>>,
    field: Seq<char>,
    fields: int,
    some: Seq<Entry>,
    backward: bool,
)
    requires
        listed(docs, all, parts, field, fields),
        readable(pages, contents_of(docs), all),
        is_end(all, some, backward),
    ensures
        listed(docs, some, end_parts(parts, some.len() as int, backward), field, fields),
        readable(pages, contents_of(docs), some),
{
    reveal(listed);
    reveal(readable);
    let lo = if backward {
        all.len() - some.len()
    } else {
        0
    };
    let those = end_parts(parts, some.len() as int, backward);
    assert forall|i: int| 0 <= i < some.len() implies some[i] == #[trigger] all[lo + i] && those[i]
        == parts[lo + i] by {}
    assert forall|i: int| 0 <= i < some.len() implies docs.dom().contains(
        key_id((#[trigger] some[i]).0),
    ) && docs[key_id(some[i].0)].0 == some[i].1 && those[i] == compound_part(
        value_of(doc_of(docs, some[i]), field),
        fields,
    ) && (fields == 1 ==> !unordered(value_of(doc_of(docs, some[i]), field))) && contents_of(
        docs,
    ).dom().contains(key_id(some[i].0)) && record_at(pages, some[i].1) == Some(
        (key_id(some[i].0), contents_of(docs)[key_id(some[i].0)]),
    ) by {
        assert(some[i] == all[lo + i]);
    }
    assert forall|i: int, j: int| 0 <= i < j < some.len() implies key_id((#[trigger] some[i]).0)
        != key_id((#[trigger] some[j]).0) by {
        assert(some[i] == all[lo + i] && some[j] == all[lo + j]);
    }
    assert forall|i: int, j: int| 0 <= i < j < those.len() implies (#[trigger] those[i]) == (
    #[trigger] those[j]) || bytes_lt(those[i], those[j]) by {
        assert(those[i] == parts[lo + i] && those[j] == parts[lo + j]);
    }
}

/// The entries at the end that is read first are read first of all.
proof fn lemma_settled(
    all: Seq<Entry>,
    views: Seq<Seq<u8>>,
    whole_split: int,
    some: Seq<Entry>,
    split: int,
    backward: bool,
    complete: bool,
)
    requires
        views.len() == all.len(),
        splits(views, whole_split),
        is_end(all, some, backward),
        splits(end_parts(views, some.len() as int, backward), split),
        complete ==> some == all,
    ensures
        settled(
            all,
            views,
            whole_split,
            some,
            end_parts(views, some.len() as int, backward),
            split,
            backward,
            complete,
        ),
{
    reveal(settled);
    let parts = end_parts(views, some.len() as int, backward);
    if backward {
        let lo = all.len() - some.len();
        if split > 0 {
            assert(parts[split - 1] == views[lo + split - 1]);
            if split < some.len() {
                assert(parts[split] == views[lo + split]);
            }
            assert(whole_split == lo + split);
        } else if complete && some.len() > 0 {
            assert(parts[0] == views[0]);
            assert(whole_split == 0);
        }
        assert forall|i: int|
            0 <= i < known(some.len() as int, split, backward, complete) implies some[#[trigger] turned(
            i,
            split,
            backward,
        )] == all[turned(i, whole_split, backward)] && parts[turned(i, split, backward)]
            == views[turned(i, whole_split, backward)] by {
            let k = turned(i, split, backward);
            assert(0 <= k < some.len());
            assert(some[k] == all[lo + k]);
            assert(parts[k] == views[lo + k]);
        }
    }
}

/// A run among the entries that are read first is one among all.
proof fn lemma_run_settled(
    held: Map<Seq<u8>, DocModel>,
    filter: FilterModel,
    all: Seq<Entry>,
    views: Seq<Seq<u8>>,
    whole_split: int,
    some: Seq<Entry>,
    parts: Seq<Seq<u8>>,
    split: int,
    backward: bool,
    complete: bool,
    from: int,
    to: int,
    more: Seq<Found>,
)
    requires
        settled(all, views, whole_split, some, parts, split, backward, complete),
        0 <= from,
        is_run(parts, split, backward, from, to),
        complete || to < known(some.len() as int, split, backward, complete),
        run_found(held, filter, false, some, split, backward, from, to, more),
    ensures
        is_run(views, whole_split, backward, from, to),
        run_found(held, filter, false, all, whole_split, backward, from, to, more),
{
    reveal(settled);
    let first = turned(from, split, backward);
    assert(parts[first] == views[turned(from, whole_split, backward)]);
    assert forall|i: int| from <= i < to implies views[#[trigger] turned(i, whole_split, backward)]
        == views[turned(from, whole_split, backward)] by {
        assert(parts[turned(i, split, backward)] == parts[first]);
    }
    if to < views.len() {
        assert(parts[turned(to, split, backward)] == views[turned(to, whole_split, backward)]);
    }
    assert forall|i: int| from <= i < to implies #[trigger] read_id(all, whole_split, backward, i)
        == read_id(some, split, backward, i) by {
        assert(some[turned(i, split, backward)] == all[turned(i, whole_split, backward)]);
    }
    assert forall|g: int| 0 <= g < more.len() implies read_in(
        all,
        whole_split,
        backward,
        from,
        to,
        (#[trigger] more[g]).0,
    ) && wanted(filter, false, more[g].1) by {
        assert(read_in(some, split, backward, from, to, more[g].0));
        let i = choose|i: int|
            from <= i < to && #[trigger] read_id(some, split, backward, i) == more[g].0;
        assert(read_id(all, whole_split, backward, i) == more[g].0);
    }
    assert forall|i: int|
        from <= i < to && wanted(
            filter,
            false,
            held[#[trigger] read_id(all, whole_split, backward, i)],
        ) implies is_among(more, read_id(all, whole_split, backward, i)) by {
        assert(read_id(some, split, backward, i) == read_id(all, whole_split, backward, i));
    }
}

/// The results of the entries, read on in order in runs that share their part,
/// until there are `limit`, or until the last run that is there whole. A run's
/// entries are told apart by the whole sort, in memory: their values may differ
/// (huge numbers, cut strings), and so may the fields to sort by after the
/// first.
fn read_runs<S: PageStore>(
    records: &mut Records<S>,
    entries: &Vec<(Vec<u8>, RecordLocation)>,
    parts: &Vec<Vec<u8>>,
    split: usize,
    complete: bool,
    filter: &Filter,
    limit: usize,
    whole: bool,
    found: &mut Vec<(DocId, Document)>,
    start: usize,
    docs: Ghost<Docs>,
    fields: Ghost<int>,
    Ghost(all): Ghost<Seq<Entry>>,
    Ghost(views): Ghost<Seq<Seq<u8>>>,
    Ghost(whole_split): Ghost<int>,
) -> (r: IoResult<usize>)
    requires
        old(records).wf(),
        split <= entries@.len(),
        parts@.len() == entries@.len(),
        filter.sort@.len() > 0,
        filter@.limit == Some(limit),
        old(found)@.len() < limit,
    ensures
        final(records).wf(),
        final(records).pages() == old(records).pages(),
        final(records).reliable() == old(records).reliable(),
        r is Ok ==> final(found)@.len() <= limit,
        ({
            let some = entry_models(entries@);
            let held = contents_of(docs@);
            readable(old(records).pages(), held, all) && readable(
                old(records).pages(),
                held,
                some,
            ) && listed(docs@, all, views, filter@.sort[0].field, fields@) && reaches(
                docs@,
                all,
                filter@,
                whole,
            ) && (!whole ==> fields@ == 1) && splits(views, whole_split) && settled(
                all,
                views,
                whole_split,
                some,
                byte_views(parts@),
                split as int,
                backward_of(filter@),
                complete,
            ) && start <= all.len() && front_at(
                held,
                filter@,
                all,
                whole_split,
                start as int,
                found_models(old(found)@),
            ) ==> match r {
                Ok(at) => if final(found)@.len() == limit {
                    is_answer(held, filter@, found_models(final(found)@))
                } else {
                    &&& at <= all.len()
                    &&& complete ==> at == all.len()
                    &&& front_at(
                        held,
                        filter@,
                        all,
                        whole_split,
                        at as int,
                        found_models(final(found)@),
                    )
                },
                Err(_) => !old(records).reliable(),
            }
        }),
{
    let ghost pages = records.pages();
    let ghost some = entry_models(entries@);
    let ghost held = contents_of(docs@);
    let ghost those = byte_views(parts@);
    let ghost good = readable(pages, held, all) && readable(pages, held, some) && listed(
        docs@,
        all,
        views,
        filter@.sort[0].field,
        fields@,
    ) && reaches(docs@, all, filter@, whole) && (!whole ==> fields@ == 1) && splits(
        views,
        whole_split,
    ) && settled(
        all,
        views,
        whole_split,
        some,
        those,
        split as int,
        backward_of(filter@),
        complete,
    ) && start <= all.len() && front_at(
        held,
        filter@,
        all,
        whole_split,
        start as int,
        found_models(found@),
    );
    let backward: bool = match filter.sort[0].order {
        SortOrder::Asc => false,
        SortOrder::Desc => true,
    };
    assert(filter@.sort[0].order == filter.sort@[0].order);
    let n: usize = entries.len();
    let sure: usize = if backward && !complete {
        split
    } else {
        n
    };
    let mut at: usize = start;
    proof {
        if good {
            reveal(settled);
        }
    }
    while at < n
        invariant
            n == entries@.len() == parts@.len(),
            split <= n,
            sure <= n,
            sure == known(n as int, split as int, backward, complete),
            filter.sort@.len() > 0,
            filter@.limit == Some(limit),
            backward == backward_of(filter@),
            records.wf(),
            records.pages() == pages,
            pages == old(records).pages(),
            records.reliable() == old(records).reliable(),
            found@.len() < limit,
            some == entry_models(entries@),
            held == contents_of(docs@),
            those == byte_views(parts@),
            good == (readable(pages, held, all) && readable(pages, held, some) && listed(
                docs@,
                all,
                views,
                filter@.sort[0].field,
                fields@,
            ) && reaches(docs@, all, filter@, whole) && (!whole ==> fields@ == 1) && splits(
                views,
                whole_split,
            ) && settled(
                all,
                views,
                whole_split,
                some,
                those,
                split as int,
                backward_of(filter@),
                complete,
            ) && start <= all.len() && front_at(
                held,
                filter@,
                all,
                whole_split,
                start as int,
                found_models(old(found)@),
            )),
            good ==> views.len() == all.len() && n <= all.len() && (complete ==> n == all.len()),
            good ==> at <= all.len(),
            good ==> front_at(
                held,
                filter@,
                all,
                whole_split,
                at as int,
                found_models(found@),
            ),
        decreases n - at,
    {
        let to: usize = run_end(parts, split, backward, at);
        if !complete && to >= sure {
            return Ok(at);
        }
        let more = match read_run(
            records,
            entries,
            split,
            backward,
            at,
            to,
            filter,
            false,
            Ghost(held),
        ) {
            Ok(more) => more,
            Err(e) => return Err(e),
        };
        let ghost before = found_models(found@);
        let ghost added = found_models(more@);
        proof {
            if good {
                lemma_run_settled(
                    held,
                    filter@,
                    all,
                    views,
                    whole_split,
                    some,
                    those,
                    split as int,
                    backward,
                    complete,
                    at as int,
                    to as int,
                    added,
                );
                lemma_front_run(
                    pages,
                    held,
                    docs@,
                    all,
                    views,
                    fields@,
                    filter@,
                    whole,
                    whole_split,
                    at as int,
                    to as int,
                    before,
                    added,
                );
            }
        }
        add_results(found, more, limit);
        if found.len() == limit {
            proof {
                if good {
                    reveal(front_at);
                    assert(found_models(found@).len() == limit);
                    lemma_front_cut(held, filter@, before + added, limit as int);
                }
            }
            return Ok(to);
        }
        proof {
            assert(found_models(found@) =~= before + added);
        }
        at = to;
    }
    Ok(at)
}

/// What a filter finds, by reading an index in the order of its sort, leaf by
/// leaf: checks each document against the whole filter, and stops as soon as
/// `limit` match; the leaves far behind them are never read. Values an index on
/// one field doesn't hold (arrays, NaN, ...) sort after everything: if the index
/// runs out before the limit and no condition ruled them out, a scan finds them.
pub fn read_in_index_order<S: PageStore>(
    catalog: &Catalog,
    store: &S,
    collection: &str,
    filter: &Filter,
    order: OrderedRead,
) -> (r: IoResult<Vec<(DocId, Document)>>)
    requires
        store.wf(),
        order.index < indexes_of(catalog@, collection@).len(),
        serves(filter@, indexes_of(catalog@, collection@)[order.index as int], order),
    ensures
        sound(store.pages(), catalog@) ==> match r {
            Ok(found) => is_answer(
                stored_in(store.pages(), catalog@, collection@),
                filter@,
                found_models(found@),
            ),
            Err(_) => !store.reliable(),
        },
{
    let limit: usize = match filter.limit {
        Some(limit) => limit,
        None => 0,
    };
    let ghost pages = store.pages();
    let ghost list = catalog@;
    let ghost held = stored_in(pages, list, collection@);
    if limit == 0 {
        let none: Vec<(DocId, Document)> = Vec::new();
        assert(found_models(none@) =~= Seq::<Found>::empty());
        return Ok(none);
    }
    let indexes: &[IndexMeta] = catalog.indexes(collection);
    let index: &IndexMeta = &indexes[order.index];
    let meta = match catalog.get(collection) {
        Some(meta) => meta,
        None => return Ok(Vec::new()),
    };
    let ghost good = sound(pages, list);
    let ghost docs = collection_docs(pages, list[position(list, collection@) as int]);
    let ghost n = index@.fields.len() as int;
    proof {
        assert(index@ == indexes_of(list, collection@)[order.index as int]);
        if good {
            lemma_ready(pages, list, collection@, order.index as int, filter@, order);
        }
    }
    let ghost all = in_range(entries_at(pages, index.root), order.range@);
    let ghost views = Seq::new(all.len(), |i: int| part_of(all[i].0, order.fixed as int));
    let ghost field = filter@.sort[0].field;
    let ghost mut split: int = 0;
    let backward: bool = match filter.sort[0].order {
        SortOrder::Asc => false,
        SortOrder::Desc => true,
    };
    assert(filter@.sort[0].order == filter.sort@[0].order);
    let mut records = Records::new(store);
    let mut found: Vec<(DocId, Document)> = Vec::new();
    let mut at: usize = 0;
    let mut want: Option<usize> = Some(limit);
    proof {
        if good {
            split = lemma_splits(docs, all, views, field, n, all.len() as int);
            assert(views.take(all.len() as int) =~= views);
            reveal(front_at);
            assert(front_at(held, filter@, all, split, 0, found_models(found@)));
        }
    }
    loop
        invariant
            store.wf(),
            pages == store.pages(),
            records.wf(),
            records.pages() == pages,
            records.reliable() == store.reliable(),
            limit > 0,
            filter.sort@.len() > 0,
            filter@.limit == Some(limit),
            backward == backward_of(filter@),
            field == filter@.sort[0].field,
            list == catalog@,
            held == stored_in(pages, list, collection@),
            n == index@.fields.len(),
            all == in_range(entries_at(pages, index.root), order.range@),
            views == Seq::new(all.len(), |i: int| part_of(all[i].0, order.fixed as int)),
            good == sound(pages, list),
            want matches Some(w) ==> w > 0,
            found@.len() < limit,
            good ==> {
                &&& has_tree(pages, index.root)
                &&& held == contents_of(docs)
                &&& listed(docs, all, views, field, n)
                &&& reaches(docs, all, filter@, order.whole)
                &&& readable(pages, held, all)
                &&& splits(views, split)
                &&& order.fixed < n
                &&& !order.whole ==> n == 1
                &&& forall|i: int|
                    0 <= i < all.len() ==> key_parts(key_value((#[trigger] all[i]).0)).len() == n
                &&& at <= all.len()
                &&& front_at(held, filter@, all, split, at as int, found_models(found@))
            },
        ensures
            records.wf(),
            records.pages() == pages,
            records.reliable() == store.reliable(),
            found@.len() < limit,
            good ==> front_at(
                held,
                filter@,
                all,
                split,
                all.len() as int,
                found_models(found@),
            ),
        decreases
                match want {
                    Some(w) => usize::MAX - w + 1,
                    None => 0,
                },
    {
        let (entries, complete) = match walk_part(
            store,
            index.root,
            &order.range,
            backward,
            want,
            Ghost(tree_at(pages, index.root)),
        ) {
            Ok(part) => part,
            Err(e) => return Err(e),
        };
        let ghost some = entry_models(entries@);
        proof {
            if good {
                lemma_end_listed(pages, docs, all, views, field, n, some, backward);
                let those = end_parts(views, some.len() as int, backward);
                let own = Seq::new(some.len(), |i: int| part_of(some[i].0, order.fixed as int));
                assert(own =~= those);
                assert forall|i: int| 0 <= i < some.len() implies order.fixed < key_parts(
                    key_value((#[trigger] some[i]).0),
                ).len() by {
                    let lo = if backward {
                        all.len() - some.len()
                    } else {
                        0
                    };
                    assert(some[i] == all[lo + i]);
                }
            }
        }
        let (parts, split_here) = sort_parts(
            &entries,
            order.fixed,
            Ghost(docs),
            Ghost(field),
            Ghost(n),
        );
        proof {
            if good {
                lemma_settled(all, views, split, some, split_here as int, backward, complete);
            }
        }
        at = match read_runs(
            &mut records,
            &entries,
            &parts,
            split_here,
            complete,
            filter,
            limit,
            order.whole,
            &mut found,
            at,
            Ghost(docs),
            Ghost(n),
            Ghost(all),
            Ghost(views),
            Ghost(split),
        ) {
            Ok(at) => at,
            Err(e) => return Err(e),
        };
        if found.len() == limit {
            return Ok(found);
        }
        if complete {
            break ;
        }
        want = match want {
            Some(w) => {
                if w > usize::MAX / 2 {
                    None
                } else {
                    Some(w * 2)
                }
            },
            None => None,
        };
    }
    let ghost front = found_models(found@);
    if order.whole {
        proof {
            if good {
                assert forall|id: Seq<u8>| #[trigger]
                    held.dom().contains(id) && meets_all(
                        filter@.conditions,
                        held[id],
                    ) implies is_among(front, id) by {
                    lemma_front_whole(held, docs, all, filter@, true, split, front, id);
                }
                reveal(front_at);
                lemma_front_cut(held, filter@, front, front.len() as int);
                assert(front.take(front.len() as int) =~= front);
            }
        }
        return Ok(found);
    }
    let primary = match BTreeIndex::new(meta.index_root).scan(store) {
        Ok(primary) => primary,
        Err(e) => return Err(e),
    };
    let unordered_matches = match read_run(
        &mut records,
        &primary,
        0,
        false,
        0,
        primary.len(),
        filter,
        true,
        Ghost(held),
    ) {
        Ok(unordered_matches) => unordered_matches,
        Err(e) => return Err(e),
    };
    let ghost more = found_models(unordered_matches@);
    proof {
        if good {
            lemma_front_rest(
                held,
                docs,
                all,
                views,
                filter@,
                split,
                front,
                entry_models(primary@),
                more,
            );
        }
    }
    add_results(&mut found, unordered_matches, limit);
    proof {
        if good {
            lemma_front_cut(
                held,
                filter@,
                front + more,
                if (front + more).len() < limit {
                    (front + more).len() as int
                } else {
                    limit as int
                },
            );
        }
    }
    Ok(found)
}

} // verus!

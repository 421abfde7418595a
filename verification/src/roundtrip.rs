//! What an import makes of an export: the database that was exported.

use crate::catalog::entry::IndexModel;
use crate::catalog::{
    exists_in, index_position, indexes_of, lemma_index_position, lemma_position, meta_of,
    names_distinct, position, CollectionModel,
};
use crate::collection::apply::{stored_in, with_id_of, written};
use crate::collection::find::lemma_readable;
use crate::collection::indexing::{index_built, indexes_changed};
use crate::collection::state::{sound, sound_with, Owners};
use crate::compact::{distinct_fields, fields_distinct, lemma_storable};
use crate::data::storable;
use crate::database::{batch_applied, batch_makes, contents, holds_all, made_by, op_makes, Contents};
use crate::document::{lemma_entry_position, lookup, with_entry, DocModel};
use crate::error::Error;
use crate::export::{
    all_names, collection_json, collection_lines, collection_reads_back, document_lines,
    every_document_has_its_line, exported, header_json, header_reads_back, ids_in_order,
    is_collection_line, line_model, line_taken, lines_of, named_lines, parsed_header,
    CollectionHeader, HeaderModel, Import, ImportStep, IndexLineModel, Summary,
};
use crate::json::{line_of, line_reads_back, parsed_line, plain_nans, JsonModel};
use crate::order::{bytes_lt, lemma_lt_asymmetric, lemma_lt_irreflexive};
use crate::storage::PageId;
use crate::txn::WriteOp;
use vstd::prelude::*;
use vstd::set_lib::lemma_subset_equality;

verus! {

/// A database: its pages, and what its catalog says.
pub ghost struct Held {
    pub pages: Map<PageId, Seq<u8>>,
    pub list: Seq<CollectionModel>,
}

impl Held {
    pub open spec fn sound(self) -> bool {
        sound(self.pages, self.list)
    }

    /// What a collection holds.
    pub open spec fn docs(self, name: Seq<char>) -> Map<Seq<u8>, DocModel> {
        stored_in(self.pages, self.list, name)
    }

    pub open spec fn has(self, name: Seq<char>) -> bool {
        exists_in(self.list, name)
    }

    /// The ids of a collection's documents, in order.
    pub open spec fn ids(self, name: Seq<char>) -> Seq<Seq<u8>> {
        ids_in_order(self.pages, self.list, name)
    }

    /// A collection's indexes, but for where they are.
    pub open spec fn lines(self, name: Seq<char>) -> Seq<IndexLineModel> {
        lines_of(indexes_of(self.list, name))
    }
}

/// Whether two databases hold the same: the same collections with the same
/// documents, and the same indexes in the same order.
pub open spec fn same_database(a: Held, b: Held) -> bool {
    &&& forall|name: Seq<char>| #[trigger] b.has(name) <==> a.has(name)
    &&& forall|name: Seq<char>| #[trigger] b.docs(name) == a.docs(name)
    &&& forall|name: Seq<char>| #[trigger] b.lines(name) == a.lines(name)
}

/// Whether a database's documents are as an insert stores them, an object with
/// its own id, and have no NaN but the usual one.
pub open spec fn plainly_kept(db: Held) -> bool {
    forall|name: Seq<char>, id: Seq<u8>| #[trigger]
        db.docs(name).dom().contains(id) ==> with_id_of(db.docs(name)[id], id) == db.docs(name)[id]
            && plain_nans(db.docs(name)[id])
}

/// Whether an index was made, as an import makes it.
pub open spec fn index_made(
    before: Held,
    name: Seq<char>,
    line: IndexLineModel,
    after: Held,
) -> bool {
    let indexes = indexes_of(before.list, name);
    if index_position(indexes, line.fields) < indexes.len() {
        after == before
    } else {
        exists|root: PageId| #[trigger]
            index_built(
                before.pages,
                before.list,
                after.pages,
                after.list,
                name,
                IndexModel {
                    fields: line.fields,
                    root,
                    unique: line.unique,
                    sparse: line.sparse,
                },
            )
    }
}

/// Whether a collection's indexes were made one after the other.
pub open spec fn indexes_made(
    dbs: Seq<Held>,
    name: Seq<char>,
    lines: Seq<IndexLineModel>,
) -> bool {
    dbs.len() == lines.len() + 1 && forall|i: int|
        0 <= i < lines.len() ==> index_made(dbs[i], name, #[trigger] lines[i], dbs[i + 1])
}

/// Whether a batch was written and then a collection's indexes made.
pub open spec fn flush_goes(
    before: Held,
    write: Seq<WriteOp>,
    build: Option<CollectionHeader>,
    dbs: Seq<Held>,
) -> bool {
    &&& dbs.len() > 0
    &&& batch_applied(before.pages, before.list, write, dbs[0].pages, dbs[0].list)
    &&& match build {
        Some(header) => indexes_made(dbs, header@.name, header@.indexes),
        None => dbs.len() == 1,
    }
}

/// What writing a batch and making a collection's indexes leaves.
pub open spec fn flushed(
    before: Held,
    write: Seq<WriteOp>,
    build: Option<CollectionHeader>,
    after: Held,
) -> bool {
    exists|dbs: Seq<Held>| #[trigger] flush_goes(before, write, build, dbs) && dbs.last() == after
}

/// What a step of an import does to the database.
pub open spec fn step_done(before: Held, step: ImportStep, after: Held) -> bool {
    match step {
        ImportStep::Read => after == before,
        ImportStep::Write(write) => batch_applied(
            before.pages,
            before.list,
            write@,
            after.pages,
            after.list,
        ),
        ImportStep::Next { write, build, name } => exists|middle: Held| #[trigger]
            flushed(before, write@, build, middle) && written(
                middle.pages,
                middle.list,
                after.pages,
                after.list,
                name@,
                middle.docs(name@),
            ),
    }
}

/// An import on its way, and the database it fills.
pub type Filling = (Import, Held);

/// Whether a line was taken without an error, and its step done.
pub open spec fn line_done(before: Filling, value: JsonModel, after: Filling) -> bool {
    exists|number: usize, text: Seq<char>, new_id: Seq<u8>, step: ImportStep| #[trigger]
        line_taken(
            before.0,
            after.0,
            number,
            text,
            value,
            new_id,
            Ok::<ImportStep, Error>(step),
        ) && step_done(before.1, step, after.1)
}

/// Whether lines were taken one after the other, each from where the last
/// left off.
pub open spec fn states_go(states: Seq<Filling>, lines: Seq<JsonModel>) -> bool {
    states.len() == lines.len() + 1 && forall|i: int|
        0 <= i < lines.len() ==> line_done(states[i], #[trigger] lines[i], states[i + 1])
}

/// Whether taking lines leads from one state to another.
pub open spec fn lines_done(before: Filling, lines: Seq<JsonModel>, after: Filling) -> bool {
    exists|states: Seq<Filling>| #[trigger]
        states_go(states, lines) && states[0] == before && states.last() == after
}

/// Lines are taken in two goes as in one.
proof fn lemma_in_two_goes(
    before: Filling,
    a: Seq<JsonModel>,
    b: Seq<JsonModel>,
    after: Filling,
) -> (middle: Filling)
    requires
        lines_done(before, a + b, after),
    ensures
        lines_done(before, a, middle),
        lines_done(middle, b, after),
{
    let all = a + b;
    let states = choose|states: Seq<Filling>| #[trigger]
        states_go(states, all) && states[0] == before && states.last() == after;
    let n = a.len() as int;
    let x = states.take(n + 1);
    let y = states.skip(n);
    assert forall|i: int| 0 <= i < a.len() implies line_done(x[i], #[trigger] a[i], x[i + 1]) by {
        assert(line_done(states[i], all[i], states[i + 1]));
    }
    assert forall|i: int| 0 <= i < b.len() implies line_done(y[i], #[trigger] b[i], y[i + 1]) by {
        assert(line_done(states[n + i], all[n + i], states[n + i + 1]));
    }
    assert(states_go(x, a) && x[0] == before && x.last() == states[n]);
    assert(states_go(y, b) && y[0] == states[n] && y.last() == after);
    states[n]
}

/// The last line is taken by itself.
proof fn lemma_last_line(before: Filling, lines: Seq<JsonModel>, after: Filling) -> (middle: Filling)
    requires
        lines.len() > 0,
        lines_done(before, lines, after),
    ensures
        lines_done(before, lines.drop_last(), middle),
        line_done(middle, lines.last(), after),
{
    let one = seq![lines.last()];
    assert(lines.drop_last() + one =~= lines);
    let middle = lemma_in_two_goes(before, lines.drop_last(), one, after);
    lemma_one_line(middle, lines.last(), after);
    middle
}

proof fn lemma_one_line(before: Filling, line: JsonModel, after: Filling)
    requires
        lines_done(before, seq![line], after),
    ensures
        line_done(before, line, after),
{
    let one = seq![line];
    let states = choose|states: Seq<Filling>| #[trigger]
        states_go(states, one) && states[0] == before && states.last() == after;
    let i: int = 0;
    assert(line_done(states[i], one[i], states[i + 1]));
}

proof fn lemma_no_line(before: Filling, lines: Seq<JsonModel>, after: Filling)
    requires
        lines.len() == 0,
        lines_done(before, lines, after),
    ensures
        after == before,
{
    let states = choose|states: Seq<Filling>| #[trigger]
        states_go(states, lines) && states[0] == before && states.last() == after;
}

/// Whether an import has taken nothing yet.
pub open spec fn untouched(import: Import) -> bool {
    &&& !import.seen_header
    &&& import.current is None
    &&& import.chunk@.len() == 0
    &&& import.bytes == 0
    &&& import.summary == (Summary { collections: 0, documents: 0 })
}

/// What a collection has come to hold once the collections `names` were
/// opened, and `d` documents of the last were read.
spec fn part(src: Held, names: Seq<Seq<char>>, d: int, name: Seq<char>) -> Map<Seq<u8>, DocModel> {
    if names.len() == 0 {
        Map::empty()
    } else if name == names.last() {
        src.docs(name).restrict(src.ids(name).take(d).to_set())
    } else if names.drop_last().contains(name) {
        src.docs(name)
    } else {
        Map::empty()
    }
}

/// Where an import stands once the collections `names` were opened, and `d`
/// documents of the last were read: some of them may still wait to be written,
/// and the last collection's indexes to be made.
#[verifier::opaque]
spec fn opened(src: Held, names: Seq<Seq<char>>, d: int, at: Filling, read: int) -> bool {
    let import = at.0;
    let db = at.1;
    &&& import.seen_header
    &&& db.sound()
    &&& match import.current {
        None => names.len() == 0 && import.chunk@.len() == 0,
        Some(header) => names.len() > 0 && header@ == (HeaderModel {
            name: names.last(),
            indexes: src.lines(names.last()),
        }),
    }
    &&& forall|i: int|
        0 <= i < import.chunk@.len() ==> (#[trigger] import.chunk@[i]) is Insert
            && import.chunk@[i].name() == names.last()
    &&& batch_makes(contents(db.pages, db.list), import.chunk@) matches Some(all) && comes_to(
        src,
        names,
        d,
        all,
    )
    &&& forall|name: Seq<char>| #[trigger] db.has(name) <==> names.contains(name)
    &&& forall|name: Seq<char>| #[trigger] db.lines(name) == (if names.len() > 0
        && names.drop_last().contains(name) {
        src.lines(name)
    } else {
        seq![]
    })
    &&& import.summary.collections == names.len()
    &&& import.summary.documents + names.len() + 1 == read
}

/// Whether collections hold what they have come to.
spec fn comes_to(src: Held, names: Seq<Seq<char>>, d: int, all: Contents) -> bool {
    forall|name: Seq<char>| #[trigger] all(name) == part(src, names, d, name)
}

/// The documents of a sound database can be read back from their lines.
proof fn lemma_lines_read_back(src: Held, name: Seq<char>, i: int)
    requires
        src.sound(),
        plainly_kept(src),
        src.has(name),
        0 <= i < src.ids(name).len(),
    ensures
        ({
            let id = src.ids(name)[i];
            let line = line_of(id, src.docs(name)[id]);
            &&& src.docs(name).dom().contains(id)
            &&& parsed_line(line) == Some((Some(id), src.docs(name)[id]))
            &&& !is_collection_line(line)
        }),
{
    let id = src.ids(name)[i];
    let m = src.docs(name)[id];
    every_document_has_its_line(src.pages, src.list, name);
    assert(src.ids(name).contains(id));
    assert(src.docs(name).dom().contains(id));
    let own = choose|own: Owners| sound_with(src.pages, src.list, own);
    lemma_position(src.list, name);
    let at = position(src.list, name) as int;
    lemma_readable(src.pages, src.list, own, at);
    lemma_storable(src.pages, src.list, own, at);
    assert(storable(m));
    match m {
        DocModel::Object(entries) => {
            let now = with_entry(entries, "_id"@, DocModel::Id(id));
            assert(now == entries);
            lemma_entry_position(entries, "_id"@);
            assert(lookup(entries, "_id"@) == Some(DocModel::Id(id)));
        },
        _ => {},
    }
    line_reads_back(id, m);
}

/// What more a collection has come to hold.
proof fn lemma_one_more_document(src: Held, names: Seq<Seq<char>>, d: int)
    requires
        src.sound(),
        names.len() > 0,
        src.has(names.last()),
        0 <= d < src.ids(names.last()).len(),
    ensures
        ({
            let name = names.last();
            let id = src.ids(name)[d];
            &&& !part(src, names, d, name).dom().contains(id)
            &&& src.docs(name).dom().contains(id)
            &&& part(src, names, d + 1, name) == part(src, names, d, name).insert(
                id,
                src.docs(name)[id],
            )
        }),
{
    let name = names.last();
    let ids = src.ids(name);
    let id = ids[d];
    every_document_has_its_line(src.pages, src.list, name);
    assert(ids.contains(id));
    let less = ids.take(d);
    let more = ids.take(d + 1);
    if less.contains(id) {
        let k = choose|k: int| 0 <= k < less.len() && less[k] == id;
        assert(bytes_lt(ids[k], ids[d]));
        lemma_lt_irreflexive(id);
    }
    assert(more.to_set() =~= less.to_set().insert(id)) by {
        assert forall|x: Seq<u8>| more.to_set().contains(x) <==> less.to_set().insert(
            id,
        ).contains(x) by {
            if more.contains(x) {
                let k = choose|k: int| 0 <= k < more.len() && more[k] == x;
                if k < d {
                    assert(less[k] == x);
                }
            }
            if less.contains(x) {
                let k = choose|k: int| 0 <= k < less.len() && less[k] == x;
                assert(more[k] == x);
            }
            assert(more[d] == id);
        }
    }
    assert(part(src, names, d + 1, name) =~= part(src, names, d, name).insert(
        id,
        src.docs(name)[id],
    ));
}

/// One more insert into the last collection.
proof fn lemma_one_more_insert(
    src: Held,
    names: Seq<Seq<char>>,
    d: int,
    before: Contents,
    ops: Seq<WriteOp>,
    more: Seq<WriteOp>,
)
    requires
        src.sound(),
        plainly_kept(src),
        names.len() > 0,
        src.has(names.last()),
        0 <= d < src.ids(names.last()).len(),
        batch_makes(before, ops) matches Some(all) && comes_to(src, names, d, all),
        more.len() > 0,
        more.drop_last() == ops,
        ({
            let name = names.last();
            let id = src.ids(name)[d];
            more.last() matches WriteOp::Insert(n, i, doc) && n@ == name && i@ == id && doc@
                == src.docs(name)[id]
        }),
    ensures
        batch_makes(before, more) matches Some(all) && comes_to(src, names, d + 1, all),
{
    let name = names.last();
    let id = src.ids(name)[d];
    let all = batch_makes(before, ops)->Some_0;
    lemma_one_more_document(src, names, d);
    let op = more.last();
    assert(op.name() == name);
    assert(all(name) == part(src, names, d, name));
    assert(with_id_of(src.docs(name)[id], id) == src.docs(name)[id]);
    let next = op_makes(all, op)->Some_0;
    assert(batch_makes(before, more) == Some(next));
    assert forall|other: Seq<char>| #[trigger] next(other) == part(src, names, d + 1, other) by {
        if other != name {
            assert(all(other) == part(src, names, d, other));
        }
    }
}

/// A document's line is taken.
#[verifier::rlimit(60)]
#[verifier::spinoff_prover]
proof fn lemma_document_read(
    src: Held,
    names: Seq<Seq<char>>,
    d: int,
    before: Filling,
    after: Filling,
    read: int,
)
    requires
        src.sound(),
        plainly_kept(src),
        names.len() > 0,
        src.has(names.last()),
        0 <= d < src.ids(names.last()).len(),
        opened(src, names, d, before, read),
        read < usize::MAX,
        line_done(
            before,
            line_of(
                src.ids(names.last())[d],
                src.docs(names.last())[src.ids(names.last())[d]],
            ),
            after,
        ),
    ensures
        opened(src, names, d + 1, after, read + 1),
{
    reveal(opened);
    let name = names.last();
    let id = src.ids(name)[d];
    let value = line_of(id, src.docs(name)[id]);
    lemma_lines_read_back(src, name, d);
    let (number, text, new_id, step) = choose|
        number: usize,
        text: Seq<char>,
        new_id: Seq<u8>,
        step: ImportStep,
    | #[trigger]
        line_taken(
            before.0,
            after.0,
            number,
            text,
            value,
            new_id,
            Ok::<ImportStep, Error>(step),
        ) && step_done(before.1, step, after.1);
    let ops = before.0.chunk@;
    let db = before.1;
    let first = contents(db.pages, db.list);
    match step {
        ImportStep::Write(write) => {
            let more = write@;
            lemma_one_more_insert(src, names, d, first, ops, more);
            let all = batch_makes(first, more)->Some_0;
            let now = after.1;
            assert(holds_all(now.pages, now.list, all));
            lemma_all_written(src, names, d + 1, now, all, after.0.chunk@);
            assert forall|i: int| 0 <= i < more.len() implies (#[trigger] more[i]) is Insert
                && more[i].name() == name by {
                if i < ops.len() {
                    assert(more[i] == ops[i]);
                }
            }
            lemma_same_catalog(src, names, db, more, now);
        },
        ImportStep::Read => {
            let more = after.0.chunk@;
            lemma_one_more_insert(src, names, d, first, ops, more);
            assert forall|i: int| 0 <= i < more.len() implies (#[trigger] more[i]) is Insert
                && more[i].name() == name by {
                if i < ops.len() {
                    assert(more[i] == ops[i]);
                }
            }
        },
        _ => {},
    }
}

/// Once everything is written, the database holds what it has come to.
proof fn lemma_all_written(
    src: Held,
    names: Seq<Seq<char>>,
    d: int,
    db: Held,
    all: Contents,
    none: Seq<WriteOp>,
)
    requires
        comes_to(src, names, d, all),
        holds_all(db.pages, db.list, all),
        none.len() == 0,
    ensures
        batch_makes(contents(db.pages, db.list), none) matches Some(now) && comes_to(
            src,
            names,
            d,
            now,
        ),
        forall|name: Seq<char>| #[trigger] db.docs(name) == part(src, names, d, name),
{
    let now = contents(db.pages, db.list);
    assert forall|name: Seq<char>| #[trigger] now(name) == part(src, names, d, name) by {
        assert(stored_in(db.pages, db.list, name) == all(name));
    }
    assert forall|name: Seq<char>| #[trigger] db.docs(name) == part(src, names, d, name) by {
        assert(stored_in(db.pages, db.list, name) == all(name));
    }
}

/// Inserts into a collection that is there change no other part of the
/// catalog.
proof fn lemma_same_catalog(
    src: Held,
    names: Seq<Seq<char>>,
    before: Held,
    ops: Seq<WriteOp>,
    after: Held,
)
    requires
        batch_applied(before.pages, before.list, ops, after.pages, after.list),
        forall|i: int|
            0 <= i < ops.len() ==> (#[trigger] ops[i]) is Insert && ops[i].name() == names.last(),
        ops.len() > 0 ==> names.len() > 0,
        forall|name: Seq<char>| #[trigger] before.has(name) <==> names.contains(name),
    ensures
        forall|name: Seq<char>| #[trigger] after.has(name) <==> names.contains(name),
        forall|name: Seq<char>| #[trigger] after.lines(name) == before.lines(name),
{
    assert forall|name: Seq<char>| #[trigger] after.has(name) <==> names.contains(name) by {
        assert(exists_in(after.list, name) <==> made_by(before.list, ops, name));
        assert(before.has(name) <==> names.contains(name));
        if made_by(before.list, ops, name) && !exists_in(before.list, name) {
            let i = choose|i: int|
                0 <= i < ops.len() && #[trigger] ops[i] is Insert && ops[i].name() == name;
            assert(names[names.len() - 1] == name);
        }
    }
    assert forall|name: Seq<char>| #[trigger] after.lines(name) == before.lines(name) by {
        assert(indexes_of(after.list, name) == indexes_of(before.list, name));
    }
}

/// The next of a collection's indexes isn't there yet.
proof fn lemma_not_made_yet(indexes: Seq<IndexModel>, lines: Seq<IndexLineModel>, i: int)
    requires
        0 <= i < lines.len(),
        lines_of(indexes) == lines.take(i),
        forall|a: int, b: int|
            0 <= a < b < lines.len() ==> (#[trigger] lines[a]).fields != (#[trigger] lines[b]).fields,
    ensures
        index_position(indexes, lines[i].fields) == indexes.len(),
{
    let fields = lines[i].fields;
    lemma_index_position(indexes, fields);
    let k = index_position(indexes, fields) as int;
    assert(lines_of(indexes).len() == indexes.len());
    if k < indexes.len() {
        assert(lines_of(indexes)[k] == line_model(indexes[k]));
        assert(lines.take(i)[k] == lines[k]);
        assert(lines[k].fields != lines[i].fields);
    }
}

/// One more of a collection's indexes is there, all else as it was.
#[verifier::spinoff_prover]
#[verifier::rlimit(40)]
proof fn lemma_index_added(
    start: Held,
    x: Held,
    y: Held,
    name: Seq<char>,
    index: IndexModel,
)
    requires
        indexes_changed(
            x.pages,
            x.list,
            y.pages,
            y.list,
            name,
            indexes_of(x.list, name).push(index),
        ),
        x.has(name),
        same_but_for(start, x, name),
    ensures
        y.sound(),
        same_but_for(start, y, name),
        y.lines(name) == x.lines(name).push(line_model(index)),
{
    let indexes = indexes_of(x.list, name);
    assert(lines_of(indexes.push(index)) =~= lines_of(indexes).push(line_model(index)));
    assert forall|other: Seq<char>| #[trigger] y.docs(other) == start.docs(other) by {
        assert(stored_in(y.pages, y.list, other) == stored_in(x.pages, x.list, other));
        assert(x.docs(other) == start.docs(other));
    }
    assert forall|other: Seq<char>| #[trigger] y.has(other) <==> start.has(other) by {
        assert(x.has(other) <==> start.has(other));
        if other != name {
            assert(meta_of(y.list, other) == meta_of(x.list, other));
        }
    }
    assert forall|other: Seq<char>| other != name implies #[trigger] y.lines(other) == start.lines(
        other,
    ) by {
        assert(indexes_of(y.list, other) == indexes_of(x.list, other));
        assert(x.lines(other) == start.lines(other));
    }
}

/// Making one more of a collection's indexes.
proof fn lemma_next_index(
    start: Held,
    x: Held,
    y: Held,
    name: Seq<char>,
    lines: Seq<IndexLineModel>,
    i: int,
)
    requires
        0 <= i < lines.len(),
        index_made(x, name, lines[i], y),
        x.has(name),
        same_but_for(start, x, name),
        x.lines(name) == lines.take(i),
        forall|a: int, b: int|
            0 <= a < b < lines.len() ==> (#[trigger] lines[a]).fields != (#[trigger] lines[b]).fields,
    ensures
        y.sound(),
        same_but_for(start, y, name),
        y.lines(name) == lines.take(i + 1),
{
    let line = lines[i];
    lemma_not_made_yet(indexes_of(x.list, name), lines, i);
    let root = choose|root: PageId| #[trigger]
        index_built(
            x.pages,
            x.list,
            y.pages,
            y.list,
            name,
            IndexModel { fields: line.fields, root, unique: line.unique, sparse: line.sparse },
        );
    let index = IndexModel {
        fields: line.fields,
        root,
        unique: line.unique,
        sparse: line.sparse,
    };
    lemma_index_added(start, x, y, name, index);
    assert(lines.take(i + 1) =~= lines.take(i).push(line));
}

/// Making a collection's first indexes.
proof fn lemma_some_indexes(
    start: Held,
    dbs: Seq<Held>,
    name: Seq<char>,
    lines: Seq<IndexLineModel>,
    i: int,
)
    requires
        indexes_made(dbs, name, lines),
        dbs[0] == start,
        start.sound(),
        start.has(name),
        start.lines(name).len() == 0,
        forall|a: int, b: int|
            0 <= a < b < lines.len() ==> (#[trigger] lines[a]).fields != (#[trigger] lines[b]).fields,
        0 <= i <= lines.len(),
    ensures
        dbs[i].sound(),
        same_but_for(start, dbs[i], name),
        dbs[i].lines(name) == lines.take(i),
    decreases i,
{
    if i == 0 {
        assert(start.lines(name) =~= lines.take(0));
    } else {
        lemma_some_indexes(start, dbs, name, lines, i - 1);
        assert(dbs[i - 1].has(name) <==> start.has(name));
        assert(index_made(dbs[i - 1], name, lines[i - 1], dbs[i - 1 + 1]));
        lemma_next_index(start, dbs[i - 1], dbs[i], name, lines, i - 1);
    }
}

/// Whether two databases hold the same but for one collection's indexes.
spec fn same_but_for(a: Held, b: Held, name: Seq<char>) -> bool {
    &&& forall|other: Seq<char>| #[trigger] b.has(other) <==> a.has(other)
    &&& forall|other: Seq<char>| #[trigger] b.docs(other) == a.docs(other)
    &&& forall|other: Seq<char>| other != name ==> #[trigger] b.lines(other) == a.lines(other)
}

/// What the collections `names` of a database hold, and no others.
spec fn full(src: Held, names: Seq<Seq<char>>, name: Seq<char>) -> Map<Seq<u8>, DocModel> {
    if names.contains(name) {
        src.docs(name)
    } else {
        Map::empty()
    }
}

/// The indexes of the collections `names`.
spec fn indexed(src: Held, names: Seq<Seq<char>>, name: Seq<char>) -> Seq<IndexLineModel> {
    if names.contains(name) {
        src.lines(name)
    } else {
        seq![]
    }
}

/// Whether a database holds the collections `names` of another with their
/// documents, and no others, and the indexes of those `made`.
#[verifier::opaque]
spec fn settled(
    src: Held,
    names: Seq<Seq<char>>,
    made: Seq<Seq<char>>,
    db: Held,
) -> bool {
    &&& db.sound()
    &&& forall|name: Seq<char>| #[trigger] db.has(name) <==> names.contains(name)
    &&& forall|name: Seq<char>| #[trigger] db.docs(name) == full(src, names, name)
    &&& forall|name: Seq<char>| #[trigger] db.lines(name) == indexed(src, made, name)
}

/// The collections in front of the last.
spec fn before_last(names: Seq<Seq<char>>) -> Seq<Seq<char>> {
    if names.len() == 0 {
        seq![]
    } else {
        names.drop_last()
    }
}

/// How many documents the last of these collections has.
spec fn last_count(src: Held, names: Seq<Seq<char>>) -> int {
    if names.len() == 0 {
        0
    } else {
        src.ids(names.last()).len() as int
    }
}

/// A collection whose documents were all read.
proof fn lemma_all_read(src: Held, names: Seq<Seq<char>>, name: Seq<char>)
    requires
        src.sound(),
        forall|i: int| 0 <= i < names.len() ==> src.has(#[trigger] names[i]),
    ensures
        part(src, names, last_count(src, names), name) == full(src, names, name),
{
    if names.len() > 0 {
        let last = names.last();
        assert(names[names.len() - 1] == last);
        if name == last {
            every_document_has_its_line(src.pages, src.list, name);
            let ids = src.ids(name);
            assert(ids.take(ids.len() as int) =~= ids);
            assert(src.docs(name).restrict(ids.to_set()) =~= src.docs(name)) by {
                assert forall|id: Seq<u8>| #[trigger]
                    src.docs(name).dom().contains(id) implies ids.to_set().contains(id) by {
                    assert(ids.contains(id));
                }
            }
        } else {
            lemma_in_front(names, name);
        }
    }
}

/// What is in a list but not last is in front of the last.
proof fn lemma_in_front(names: Seq<Seq<char>>, name: Seq<char>)
    requires
        names.len() > 0,
        name != names.last(),
    ensures
        names.drop_last().contains(name) <==> names.contains(name),
{
    let front = names.drop_last();
    if front.contains(name) {
        let i = choose|i: int| 0 <= i < front.len() && front[i] == name;
        assert(names[i] == name);
    }
    if names.contains(name) {
        let i = choose|i: int| 0 <= i < names.len() && names[i] == name;
        assert(front[i] == name);
    }
}

/// What waits is written.
#[verifier::rlimit(60)]
#[verifier::spinoff_prover]
proof fn lemma_batch_settles(
    src: Held,
    names: Seq<Seq<char>>,
    at: Filling,
    read: int,
    after: Held,
)
    requires
        src.sound(),
        forall|i: int| 0 <= i < names.len() ==> src.has(#[trigger] names[i]),
        opened(src, names, last_count(src, names), at, read),
        batch_applied(at.1.pages, at.1.list, at.0.chunk@, after.pages, after.list),
    ensures
        settled(src, names, before_last(names), after),
{
    reveal(opened);
    let d = last_count(src, names);
    let ops = at.0.chunk@;
    let db = at.1;
    let all = batch_makes(contents(db.pages, db.list), ops)->Some_0;
    let none: Seq<WriteOp> = seq![];
    lemma_all_written(src, names, d, after, all, none);
    lemma_same_catalog(src, names, db, ops, after);
    assert forall|name: Seq<char>| #[trigger] after.docs(name) == full(src, names, name) by {
        lemma_all_read(src, names, name);
    }
    assert forall|name: Seq<char>| #[trigger] after.lines(name) == indexed(
        src,
        before_last(names),
        name,
    ) by {
        assert(after.lines(name) == db.lines(name));
    }
    reveal(settled);
}

/// The last collection's indexes are made.
#[verifier::rlimit(60)]
#[verifier::spinoff_prover]
proof fn lemma_indexes_settle(
    src: Held,
    names: Seq<Seq<char>>,
    start: Held,
    dbs: Seq<Held>,
)
    requires
        names.len() > 0,
        names.no_duplicates(),
        fields_distinct(src.list),
        settled(src, names, before_last(names), start),
        dbs[0] == start,
        indexes_made(dbs, names.last(), src.lines(names.last())),
    ensures
        settled(src, names, names, dbs.last()),
{
    reveal(settled);
    let name = names.last();
    let lines = src.lines(name);
    let front = names.drop_last();
    let after = dbs.last();
    assert(names[names.len() - 1] == name);
    assert(start.has(name));
    assert(!front.contains(name)) by {
        if front.contains(name) {
            let k = choose|k: int| 0 <= k < front.len() && front[k] == name;
            assert(names[k] == names[names.len() - 1]);
        }
    }
    assert(start.lines(name) == indexed(src, front, name));
    assert(distinct_fields(indexes_of(src.list, name)));
    assert forall|a: int, b: int| 0 <= a < b < lines.len() implies (#[trigger] lines[a]).fields != (
    #[trigger] lines[b]).fields by {
        let indexes = indexes_of(src.list, name);
        assert(indexes[a].fields != indexes[b].fields);
    }
    lemma_some_indexes(start, dbs, name, lines, lines.len() as int);
    assert(lines.take(lines.len() as int) =~= lines);
    assert(dbs[lines.len() as int] == after);
    assert forall|other: Seq<char>| #[trigger] after.lines(other) == indexed(src, names, other) by {
        if other != name {
            assert(after.lines(other) == start.lines(other));
            lemma_in_front(names, other);
        }
    }
    assert forall|other: Seq<char>| #[trigger] after.has(other) <==> names.contains(other) by {
        assert(after.has(other) <==> start.has(other));
    }
    assert forall|other: Seq<char>| #[trigger] after.docs(other) == full(src, names, other) by {
        assert(after.docs(other) == start.docs(other));
    }
}

/// What waits is written, and the last collection's indexes are made.
proof fn lemma_flushed(
    src: Held,
    names: Seq<Seq<char>>,
    at: Filling,
    read: int,
    after: Held,
)
    requires
        src.sound(),
        fields_distinct(src.list),
        names.no_duplicates(),
        forall|i: int| 0 <= i < names.len() ==> src.has(#[trigger] names[i]),
        opened(src, names, last_count(src, names), at, read),
        flushed(at.1, at.0.chunk@, at.0.current, after),
    ensures
        settled(src, names, names, after),
{
    let dbs = choose|dbs: Seq<Held>| #[trigger]
        flush_goes(at.1, at.0.chunk@, at.0.current, dbs) && dbs.last() == after;
    lemma_batch_settles(src, names, at, read, dbs[0]);
    assert(match at.0.current {
        None => names.len() == 0,
        Some(header) => names.len() > 0 && header@ == (HeaderModel {
            name: names.last(),
            indexes: src.lines(names.last()),
        }),
    }) by {
        reveal(opened);
    }
    match at.0.current {
        None => {
            assert(names =~= before_last(names));
        },
        Some(header) => {
            lemma_indexes_settle(src, names, dbs[0], dbs);
        },
    }
}

/// One more collection is there.
proof fn lemma_made(
    src: Held,
    names: Seq<Seq<char>>,
    name: Seq<char>,
    middle: Held,
    db: Held,
)
    requires
        !names.contains(name),
        settled(src, names, names, middle),
        written(middle.pages, middle.list, db.pages, db.list, name, middle.docs(name)),
    ensures
        db.sound(),
        comes_to(src, names.push(name), 0, contents(db.pages, db.list)),
        forall|other: Seq<char>| #[trigger] db.has(other) <==> names.push(name).contains(other),
        forall|other: Seq<char>| #[trigger] db.lines(other) == indexed(src, names, other),
{
    reveal(settled);
    let more = names.push(name);
    assert(more.drop_last() =~= names);
    assert(more.last() == name);
    let all = contents(db.pages, db.list);
    assert forall|other: Seq<char>| #[trigger] all(other) == part(src, more, 0, other) by {
        assert(middle.docs(other) == full(src, names, other));
        if other == name {
            assert(src.ids(name).take(0).to_set() =~= Set::empty());
            assert(part(src, more, 0, name) =~= Map::empty());
        } else {
            assert(stored_in(db.pages, db.list, other) == stored_in(
                middle.pages,
                middle.list,
                other,
            ));
        }
    }
    assert forall|other: Seq<char>| #[trigger] db.has(other) <==> more.contains(other) by {
        assert(middle.has(other) <==> names.contains(other));
        if other != name {
            assert(meta_of(db.list, other) == meta_of(middle.list, other));
            lemma_in_front(more, other);
        } else {
            assert(more[names.len() as int] == name);
        }
    }
    assert forall|other: Seq<char>| #[trigger] db.lines(other) == indexed(src, names, other) by {
        assert(indexes_of(db.list, other) == indexes_of(middle.list, other));
        assert(middle.lines(other) == db.lines(other));
    }
}

/// A collection's line is taken.
#[verifier::rlimit(60)]
#[verifier::spinoff_prover]
proof fn lemma_collection_read(
    src: Held,
    names: Seq<Seq<char>>,
    name: Seq<char>,
    before: Filling,
    after: Filling,
    read: int,
)
    requires
        src.sound(),
        fields_distinct(src.list),
        names.no_duplicates(),
        forall|i: int| 0 <= i < names.len() ==> src.has(#[trigger] names[i]),
        src.has(name),
        !names.contains(name),
        opened(src, names, last_count(src, names), before, read),
        read < usize::MAX,
        line_done(before, collection_json(name, src.lines(name)), after),
    ensures
        opened(src, names.push(name), 0, after, read + 1),
{
    let value = collection_json(name, src.lines(name));
    let more = names.push(name);
    lemma_fields_there(src, name);
    collection_reads_back(name, src.lines(name));
    let (number, text, new_id, step) = choose|
        number: usize,
        text: Seq<char>,
        new_id: Seq<u8>,
        step: ImportStep,
    | #[trigger]
        line_taken(
            before.0,
            after.0,
            number,
            text,
            value,
            new_id,
            Ok::<ImportStep, Error>(step),
        ) && step_done(before.1, step, after.1);
    assert(before.0.seen_header && before.0.summary.collections == names.len()
        && before.0.summary.documents + names.len() + 1 == read) by {
        reveal(opened);
    }
    match step {
        ImportStep::Next { write, build, name: title } => {
            let middle = choose|middle: Held| #[trigger]
                flushed(before.1, write@, build, middle) && written(
                    middle.pages,
                    middle.list,
                    after.1.pages,
                    after.1.list,
                    title@,
                    middle.docs(title@),
                );
            lemma_flushed(src, names, before, read, middle);
            lemma_made(src, names, name, middle, after.1);
        },
        _ => {},
    }
    assert(more.drop_last() =~= names);
    assert(more.last() == name);
    let db = after.1;
    let all = contents(db.pages, db.list);
    assert(batch_makes(all, after.0.chunk@) == Some(all));
    assert forall|other: Seq<char>| #[trigger] db.lines(other) == (if more.len() > 0
        && more.drop_last().contains(other) {
        src.lines(other)
    } else {
        seq![]
    }) by {
        assert(db.lines(other) == indexed(src, names, other));
    }
    reveal(opened);
}

/// Every index is on something.
proof fn lemma_fields_there(src: Held, name: Seq<char>)
    requires
        src.sound(),
        src.has(name),
    ensures
        forall|i: int|
            0 <= i < src.lines(name).len() ==> (#[trigger] src.lines(name)[i]).fields.len() > 0,
{
    let own = choose|own: Owners| sound_with(src.pages, src.list, own);
    lemma_position(src.list, name);
    lemma_storable(src.pages, src.list, own, position(src.list, name) as int);
}

/// A collection's documents are read.
proof fn lemma_documents_read(
    src: Held,
    names: Seq<Seq<char>>,
    d: int,
    before: Filling,
    after: Filling,
    read: int,
)
    requires
        src.sound(),
        plainly_kept(src),
        names.len() > 0,
        src.has(names.last()),
        0 <= d <= src.ids(names.last()).len(),
        opened(src, names, 0, before, read),
        read + d <= usize::MAX,
        lines_done(
            before,
            document_lines(src.docs(names.last()), src.ids(names.last()).take(d)),
            after,
        ),
    ensures
        opened(src, names, d, after, read + d),
    decreases d,
{
    let name = names.last();
    let ids = src.ids(name);
    let held = src.docs(name);
    let lines = document_lines(held, ids.take(d));
    if d == 0 {
        lemma_no_line(before, lines, after);
    } else {
        assert(lines.drop_last() =~= document_lines(held, ids.take(d - 1))) by {
            assert(ids.take(d).drop_last() =~= ids.take(d - 1));
        }
        assert(lines.last() == line_of(ids[d - 1], held[ids[d - 1]]));
        let middle = lemma_last_line(before, lines, after);
        lemma_documents_read(src, names, d - 1, before, middle, read);
        lemma_document_read(src, names, d - 1, middle, after, read + d - 1);
    }
}

/// The lines of the first collections are read.
proof fn lemma_collections_read(
    src: Held,
    names: Seq<Seq<char>>,
    before: Filling,
    after: Filling,
)
    requires
        src.sound(),
        plainly_kept(src),
        fields_distinct(src.list),
        names.no_duplicates(),
        forall|i: int| 0 <= i < names.len() ==> src.has(#[trigger] names[i]),
        opened(src, seq![], 0, before, 1),
        lines_done(before, named_lines(src.pages, src.list, names), after),
        named_lines(src.pages, src.list, names).len() < usize::MAX,
    ensures
        opened(
            src,
            names,
            last_count(src, names),
            after,
            named_lines(src.pages, src.list, names).len() + 1int,
        ),
    decreases names.len(),
{
    let none: Seq<Seq<char>> = seq![];
    if names.len() == 0 {
        assert(names =~= none);
        lemma_no_line(before, named_lines(src.pages, src.list, names), after);
    } else {
        let front = names.drop_last();
        let name = names.last();
        let a = named_lines(src.pages, src.list, front);
        let b = collection_lines(src.pages, src.list, name);
        let middle = lemma_in_two_goes(before, a, b, after);
        assert forall|i: int| 0 <= i < front.len() implies src.has(#[trigger] front[i]) by {
            assert(front[i] == names[i]);
        }
        assert(names[names.len() - 1] == name);
        assert(!front.contains(name)) by {
            if front.contains(name) {
                let k = choose|k: int| 0 <= k < front.len() && front[k] == name;
                assert(names[k] == names[names.len() - 1]);
            }
        }
        lemma_collections_read(src, front, before, middle);
        let title = seq![collection_json(name, src.lines(name))];
        let ids = src.ids(name);
        let docs = document_lines(src.docs(name), ids);
        assert(b =~= title + docs);
        let named = lemma_in_two_goes(middle, title, docs, after);
        lemma_one_line(middle, collection_json(name, src.lines(name)), named);
        lemma_collection_read(src, front, name, middle, named, a.len() + 1int);
        assert(front.push(name) =~= names);
        assert(ids.take(ids.len() as int) =~= ids);
        lemma_documents_read(src, names, ids.len() as int, named, after, a.len() + 2int);
    }
}

/// The names of an export are those of the collections, each once.
proof fn lemma_all_names(list: Seq<CollectionModel>, names: Seq<Seq<char>>)
    requires
        names_distinct(list),
        all_names(list, names),
    ensures
        names.no_duplicates(),
        forall|name: Seq<char>| #[trigger] names.contains(name) <==> exists_in(list, name),
{
    let own = list_names(list);
    lemma_list_names(list);
    own.unique_seq_to_set();
    names.lemma_cardinality_of_set();
    assert(own.to_set().subset_of(names.to_set())) by {
        assert forall|name: Seq<char>| own.to_set().contains(name) implies names.to_set().contains(
            name,
        ) by {
            let i = choose|i: int| 0 <= i < own.len() && own[i] == name;
            assert(names.contains(list[i].name));
        }
    }
    vstd::set_lib::lemma_len_subset(own.to_set(), names.to_set());
    names.lemma_no_dup_set_cardinality();
    lemma_subset_equality(own.to_set(), names.to_set());
    assert forall|name: Seq<char>| #[trigger] names.contains(name) <==> exists_in(list, name) by {
        assert(names.to_set().contains(name) <==> own.to_set().contains(name));
        assert(own.contains(name) <==> exists_in(list, name));
    }
}

/// The collections' names, as the catalog lists them.
spec fn list_names(list: Seq<CollectionModel>) -> Seq<Seq<char>> {
    Seq::new(list.len(), |i: int| list[i].name)
}

proof fn lemma_list_names(list: Seq<CollectionModel>)
    requires
        names_distinct(list),
    ensures
        list_names(list).no_duplicates(),
        forall|name: Seq<char>| #[trigger]
            list_names(list).contains(name) <==> exists_in(list, name),
{
    let own = list_names(list);
    assert forall|i: int, j: int| 0 <= i < own.len() && 0 <= j < own.len() && i != j implies own[i]
        != own[j] by {
        assert(list[i].name != list[j].name);
    }
    assert forall|name: Seq<char>| #[trigger] own.contains(name) <==> exists_in(list, name) by {
        lemma_position(list, name);
        if exists_in(list, name) {
            assert(own[position(list, name) as int] == name);
        }
        if own.contains(name) {
            let i = choose|i: int| 0 <= i < own.len() && own[i] == name;
            assert(list[i].name == name);
        }
    }
}

/// An export, imported into a database without collections, gives the same
/// collections with the same documents, and the same indexes in the same
/// order: if each line is taken, each step is done, and the rest written at the
/// end, as an import does it. It counts the collections and the documents.
pub proof fn import_restores_an_export(
    src: Held,
    lines: Seq<JsonModel>,
    start: Filling,
    last: Filling,
    end: Held,
)
    requires
        src.sound(),
        fields_distinct(src.list),
        plainly_kept(src),
        exported(src.pages, src.list, lines),
        lines.len() <= usize::MAX,
        untouched(start.0),
        start.1.sound(),
        start.1.list.len() == 0,
        lines_done(start, lines, last),
        flushed(last.1, last.0.chunk@, last.0.current, end),
    ensures
        end.sound(),
        same_database(src, end),
        last.0.seen_header,
        last.0.summary.collections == src.list.len(),
        last.0.summary.documents + src.list.len() + 1 == lines.len(),
{
    let names = choose|names: Seq<Seq<char>>| #[trigger]
        all_names(src.list, names) && lines == seq![header_json()] + named_lines(
            src.pages,
            src.list,
            names,
        );
    let own = choose|own: Owners| sound_with(src.pages, src.list, own);
    lemma_all_names(src.list, names);
    let head = seq![header_json()];
    let rest = named_lines(src.pages, src.list, names);
    let ready = lemma_in_two_goes(start, head, rest, last);
    lemma_one_line(start, header_json(), ready);
    lemma_header_read(src, start, ready);
    assert forall|i: int| 0 <= i < names.len() implies src.has(#[trigger] names[i]) by {
        assert(names.contains(names[i]));
    }
    lemma_collections_read(src, names, ready, last);
    lemma_flushed(src, names, last, rest.len() + 1int, end);
    assert(last.0.seen_header && last.0.summary.collections == names.len()
        && last.0.summary.documents + names.len() + 1 == rest.len() + 1) by {
        reveal(opened);
    }
    reveal(settled);
    assert forall|name: Seq<char>| #[trigger] end.has(name) <==> src.has(name) by {
        assert(names.contains(name) <==> exists_in(src.list, name));
    }
    assert forall|name: Seq<char>| #[trigger] end.docs(name) == src.docs(name) by {
        assert(names.contains(name) <==> exists_in(src.list, name));
        assert(end.docs(name) == full(src, names, name));
    }
    assert forall|name: Seq<char>| #[trigger] end.lines(name) == src.lines(name) by {
        assert(names.contains(name) <==> exists_in(src.list, name));
        assert(end.lines(name) == indexed(src, names, name));
        if !names.contains(name) {
            assert(src.lines(name) =~= seq![]);
        }
    }
}

/// The first line is taken.
proof fn lemma_header_read(src: Held, start: Filling, after: Filling)
    requires
        untouched(start.0),
        start.1.sound(),
        start.1.list.len() == 0,
        line_done(start, header_json(), after),
    ensures
        opened(src, seq![], 0, after, 1),
{
    reveal(opened);
    header_reads_back();
    let db = start.1;
    let none: Seq<Seq<char>> = seq![];
    assert(after.1 == db);
    assert(after.0.chunk == start.0.chunk);
    let all = contents(db.pages, db.list);
    assert forall|name: Seq<char>| #[trigger] all(name) == part(src, none, 0, name) by {
        lemma_position(db.list, name);
    }
    assert forall|name: Seq<char>| #[trigger] db.has(name) <==> none.contains(name) by {
        lemma_position(db.list, name);
    }
    assert forall|name: Seq<char>| #[trigger] db.lines(name) == Seq::<IndexLineModel>::empty() by {
        lemma_position(db.list, name);
        assert(db.lines(name) =~= Seq::<IndexLineModel>::empty());
    }
}

/// Whether a line behind the header can be read: as one that names a
/// collection, or as a document's.
pub open spec fn readable_line(value: JsonModel) -> bool {
    if is_collection_line(value) {
        parsed_header(value) is Some
    } else {
        parsed_line(value) is Some
    }
}

/// The lines of collections can be read, and the first names one.
proof fn lemma_lines_readable(src: Held, names: Seq<Seq<char>>)
    requires
        src.sound(),
        plainly_kept(src),
        forall|i: int| 0 <= i < names.len() ==> src.has(#[trigger] names[i]),
    ensures
        forall|i: int|
            0 <= i < named_lines(src.pages, src.list, names).len() ==> readable_line(
                #[trigger] named_lines(src.pages, src.list, names)[i],
            ),
        named_lines(src.pages, src.list, names).len() > 0 ==> is_collection_line(
            named_lines(src.pages, src.list, names)[0],
        ),
    decreases names.len(),
{
    if names.len() > 0 {
        let front = names.drop_last();
        let name = names.last();
        assert(src.has(names[names.len() - 1]));
        assert forall|i: int| 0 <= i < front.len() implies src.has(#[trigger] front[i]) by {
            assert(front[i] == names[i]);
        }
        lemma_lines_readable(src, front);
        lemma_fields_there(src, name);
        collection_reads_back(name, src.lines(name));
        let first = named_lines(src.pages, src.list, front);
        let rest = collection_lines(src.pages, src.list, name);
        let all = named_lines(src.pages, src.list, names);
        assert(all == first + rest);
        assert(rest[0] == collection_json(name, src.lines(name)));
        assert forall|i: int| 0 <= i < all.len() implies readable_line(#[trigger] all[i]) by {
            let k = i - first.len();
            if k < 0 {
                assert(all[i] == first[i]);
            } else if k > 0 {
                lemma_lines_read_back(src, name, k - 1);
                assert(all[i] == line_of(
                    src.ids(name)[k - 1],
                    src.docs(name)[src.ids(name)[k - 1]],
                ));
            }
        }
        if first.len() > 0 {
            assert(all[0] == first[0]);
        } else {
            assert(all[0] == rest[0]);
        }
    }
}

/// Every line of an export is taken: the header by an import that has read
/// nothing, and each line behind it once the lines in front of it were.
pub proof fn every_line_of_an_export_is_taken(
    src: Held,
    lines: Seq<JsonModel>,
    i: int,
    before: Import,
    after: Import,
    number: usize,
    text: Seq<char>,
    new_id: Seq<u8>,
    r: Result<ImportStep, Error>,
)
    requires
        src.sound(),
        plainly_kept(src),
        exported(src.pages, src.list, lines),
        0 <= i < lines.len(),
        before.seen_header <==> i > 0,
        i > 1 ==> before.current is Some,
        line_taken(before, after, number, text, lines[i], new_id, r),
    ensures
        r is Ok,
        after.seen_header,
        i > 0 ==> after.current is Some,
{
    let names = choose|names: Seq<Seq<char>>| #[trigger]
        all_names(src.list, names) && lines == seq![header_json()] + named_lines(
            src.pages,
            src.list,
            names,
        );
    let own = choose|own: Owners| sound_with(src.pages, src.list, own);
    lemma_all_names(src.list, names);
    assert forall|k: int| 0 <= k < names.len() implies src.has(#[trigger] names[k]) by {
        assert(names.contains(names[k]));
    }
    lemma_lines_readable(src, names);
    header_reads_back();
    if i > 0 {
        let rest = named_lines(src.pages, src.list, names);
        assert(lines[i] == rest[i - 1]);
        assert(readable_line(rest[i - 1]));
    }
}

/// Two lists in ascending order with the same members are the same.
proof fn lemma_same_order(a: Seq<Seq<u8>>, b: Seq<Seq<u8>>)
    requires
        forall|i: int, j: int| 0 <= i < j < a.len() ==> bytes_lt(#[trigger] a[i], #[trigger] a[j]),
        forall|i: int, j: int| 0 <= i < j < b.len() ==> bytes_lt(#[trigger] b[i], #[trigger] b[j]),
        forall|x: Seq<u8>| #[trigger] a.contains(x) <==> b.contains(x),
    ensures
        a == b,
    decreases a.len(),
{
    if a.len() == 0 {
        if b.len() > 0 {
            assert(b.contains(b[0]));
            assert(a.contains(b[0]));
        }
        assert(a =~= b);
    } else {
        let x = a.last();
        assert(a.contains(a[a.len() - 1]));
        let j = choose|j: int| 0 <= j < b.len() && b[j] == x;
        let y = b.last();
        if b.len() == 0 {
            assert(b.contains(x));
        }
        assert(b.contains(b[b.len() - 1]));
        assert(a.contains(y));
        let i = choose|i: int| 0 <= i < a.len() && a[i] == y;
        if j < b.len() - 1 {
            assert(bytes_lt(b[j], b[b.len() - 1]));
            if i < a.len() - 1 {
                assert(bytes_lt(a[i], a[a.len() - 1]));
                lemma_lt_asymmetric(x, y);
            } else {
                lemma_lt_irreflexive(x);
            }
        }
        assert(x == y);
        let c = a.drop_last();
        let d = b.drop_last();
        assert forall|z: Seq<u8>| #[trigger] c.contains(z) <==> d.contains(z) by {
            lemma_front_members(a, z);
            lemma_front_members(b, z);
        }
        assert forall|i: int, j: int| 0 <= i < j < c.len() implies bytes_lt(
            #[trigger] c[i],
            #[trigger] c[j],
        ) by {
            assert(bytes_lt(a[i], a[j]));
        }
        assert forall|i: int, j: int| 0 <= i < j < d.len() implies bytes_lt(
            #[trigger] d[i],
            #[trigger] d[j],
        ) by {
            assert(bytes_lt(b[i], b[j]));
        }
        lemma_same_order(c, d);
        assert(a =~= c.push(x));
        assert(b =~= d.push(y));
    }
}

/// The members of an ascending list, but for the last.
proof fn lemma_front_members(a: Seq<Seq<u8>>, z: Seq<u8>)
    requires
        a.len() > 0,
        forall|i: int, j: int| 0 <= i < j < a.len() ==> bytes_lt(#[trigger] a[i], #[trigger] a[j]),
    ensures
        a.drop_last().contains(z) <==> a.contains(z) && z != a.last(),
{
    let c = a.drop_last();
    if c.contains(z) {
        let i = choose|i: int| 0 <= i < c.len() && c[i] == z;
        assert(a[i] == z);
        assert(bytes_lt(a[i], a[a.len() - 1]));
        lemma_lt_irreflexive(z);
    }
    if a.contains(z) && z != a.last() {
        let i = choose|i: int| 0 <= i < a.len() && a[i] == z;
        assert(c[i] == z);
    }
}

/// Databases that hold the same are exported as the same lines.
pub proof fn same_databases_export_the_same(a: Held, b: Held, lines: Seq<JsonModel>)
    requires
        a.sound(),
        b.sound(),
        same_database(a, b),
        exported(a.pages, a.list, lines),
    ensures
        exported(b.pages, b.list, lines),
{
    let names = choose|names: Seq<Seq<char>>| #[trigger]
        all_names(a.list, names) && lines == seq![header_json()] + named_lines(
            a.pages,
            a.list,
            names,
        );
    let own = choose|own: Owners| sound_with(a.pages, a.list, own);
    let other = choose|own: Owners| sound_with(b.pages, b.list, own);
    lemma_all_names(a.list, names);
    let theirs = list_names(b.list);
    lemma_list_names(b.list);
    assert forall|name: Seq<char>| #[trigger] names.contains(name) <==> theirs.contains(name) by {
        assert(b.has(name) <==> a.has(name));
        assert(theirs.contains(name) <==> exists_in(b.list, name));
    }
    names.unique_seq_to_set();
    theirs.unique_seq_to_set();
    assert(names.to_set() =~= theirs.to_set()) by {
        assert forall|name: Seq<char>| names.to_set().contains(name)
            <==> theirs.to_set().contains(name) by {
            assert(names.contains(name) <==> theirs.contains(name));
        }
    }
    assert(all_names(b.list, names)) by {
        assert forall|i: int| 0 <= i < b.list.len() implies names.contains(
            (#[trigger] b.list[i]).name,
        ) by {
            assert(theirs[i] == b.list[i].name);
            assert(theirs.contains(theirs[i]));
        }
    }
    assert forall|i: int| 0 <= i < names.len() implies a.has(#[trigger] names[i]) by {
        assert(names.contains(names[i]));
    }
    lemma_same_lines(a, b, names);
}

proof fn lemma_same_lines(a: Held, b: Held, names: Seq<Seq<char>>)
    requires
        a.sound(),
        b.sound(),
        same_database(a, b),
        forall|i: int| 0 <= i < names.len() ==> a.has(#[trigger] names[i]),
    ensures
        named_lines(a.pages, a.list, names) == named_lines(b.pages, b.list, names),
    decreases names.len(),
{
    if names.len() > 0 {
        let front = names.drop_last();
        let name = names.last();
        assert forall|i: int| 0 <= i < front.len() implies a.has(#[trigger] front[i]) by {
            assert(front[i] == names[i]);
        }
        lemma_same_lines(a, b, front);
        assert(a.has(names[names.len() - 1]));
        assert(b.has(name) <==> a.has(name));
        every_document_has_its_line(a.pages, a.list, name);
        every_document_has_its_line(b.pages, b.list, name);
        assert(b.docs(name) == a.docs(name));
        assert(b.lines(name) == a.lines(name));
        assert forall|id: Seq<u8>| #[trigger] a.ids(name).contains(id) <==> b.ids(name).contains(
            id,
        ) by {
            assert(a.docs(name).dom().contains(id) <==> a.ids(name).contains(id));
            assert(b.docs(name).dom().contains(id) <==> b.ids(name).contains(id));
        }
        lemma_same_order(a.ids(name), b.ids(name));
    }
}

} // verus!

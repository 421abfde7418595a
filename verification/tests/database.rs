use trunkdb::batch::Batch;
use trunkdb::bench::XorShift;
use trunkdb::catalog::{Catalog, IndexOptions};
use trunkdb::check::{check, Check, CheckReport};
use trunkdb::collection::api::{
    count, delete_many, first_only, found, get_document, upsert, write_if_changed, IndexFields,
    Upserted,
};
use trunkdb::collection::apply::with_id;
use trunkdb::collection::drops::{drop_collection, drop_index};
use trunkdb::collection::explain::{explain, QueryPlan};
use trunkdb::collection::find::{find_in, find_in_memory};
use trunkdb::collection::handle::{
    ensure_index_with, find_one, sparse_indexes, unique_indexes,
};
use trunkdb::collection::update::update_many;
use trunkdb::compact::{rebuild, Compacted};
use trunkdb::cursor::Cursor;
use trunkdb::data::{read_data_page, update_record};
use trunkdb::database::{apply_batch, Applied, Logged, OpenOptions, State};
use trunkdb::document::{DocId, Document, Fields, MAX_NESTING};
use trunkdb::encoding::encode_document;
use trunkdb::error::{Error, ErrorKind, IoError};
use trunkdb::export::{export_lines, Import, ImportStep, Summary};
use trunkdb::filter::{sort_documents, Condition, Filter, Sort, SortOrder};
use trunkdb::id::{IdGenerator, UuidV7Generator};
use trunkdb::index::btree::BTreeIndex;
use trunkdb::index::key;
use trunkdb::index::Index;
use trunkdb::json::Json;
use trunkdb::path::{value_or_null, values_at};
use trunkdb::query::{equal, Op, Relation};
use trunkdb::secondary::index_keys;
use trunkdb::storage::{
    MemoryStore, PageId, PageStore, PageType, SlottedPage, USABLE_PAGE_SIZE,
};
use trunkdb::txn::WriteOp;

const PLAIN: IndexOptions = IndexOptions {
    unique: false,
    sparse: false,
};
const UNIQUE: IndexOptions = IndexOptions {
    unique: true,
    sparse: false,
};
const SPARSE: IndexOptions = IndexOptions {
    unique: false,
    sparse: true,
};

/// A database in memory.
struct Db {
    state: State<MemoryStore>,
}

impl Db {
    fn open() -> Db {
        let mut store = MemoryStore::new();
        let catalog = Catalog::load(&mut store).unwrap();
        Db {
            state: State {
                store,
                catalog,
                poisoned: false,
                checkpoint_pages: 1000,
            },
        }
    }

    /// Reads the catalog again from the pages.
    fn reopen(&mut self) {
        self.state.catalog = Catalog::load(&mut self.state.store).unwrap();
    }

    fn transact<R>(
        &mut self,
        change: impl FnOnce(&mut Catalog, &mut MemoryStore) -> Result<R, Error>,
    ) -> Result<R, Error> {
        let started = self.state.begin()?;
        let result = change(&mut self.state.catalog, &mut self.state.store);
        match self.state.applied(started, result) {
            Applied::Done(result) => result,
            Applied::Log {
                started, result, ..
            } => match self.state.logged(started, result, Ok(())) {
                Logged::Committed { result, .. } => Ok(result),
                Logged::Failed(error) => Err(error),
            },
        }
    }

    fn write(&mut self, ops: Vec<WriteOp>) -> Result<(), Error> {
        self.transact(|catalog, store| apply_batch(catalog, store, &ops))
    }

    fn insert(&mut self, name: &str, doc: Document) -> Result<DocId, Error> {
        let id = UuidV7Generator.generate();
        self.write(vec![WriteOp::Insert(name.to_string(), id, doc)])?;
        Ok(id)
    }

    fn update(&mut self, name: &str, id: &DocId, doc: Document) -> Result<bool, Error> {
        found(self.write(vec![WriteOp::Update(name.to_string(), *id, doc)]))
    }

    fn delete(&mut self, name: &str, id: &DocId) -> Result<bool, Error> {
        found(self.write(vec![WriteOp::Delete(name.to_string(), *id)]))
    }

    fn get(&self, name: &str, id: &DocId) -> Option<Document> {
        get_document(&self.state.catalog, &self.state.store, name, *id).unwrap()
    }

    fn find(&self, name: &str, filter: &Filter) -> Vec<(DocId, Document)> {
        find_in(&self.state.catalog, &self.state.store, name, filter).unwrap()
    }

    /// What sorting everything in memory finds.
    fn scan(&self, name: &str, filter: &Filter) -> Vec<(DocId, Document)> {
        find_in_memory(&self.state.catalog, &self.state.store, name, filter).unwrap()
    }

    fn count(&self, name: &str, filter: &Filter) -> usize {
        count(&self.state.catalog, &self.state.store, name, filter).unwrap()
    }

    fn explain(&self, name: &str, filter: &Filter) -> QueryPlan {
        explain(&self.state.catalog, name, filter)
    }

    fn index_with<F: IndexFields>(
        &mut self,
        name: &str,
        fields: F,
        options: IndexOptions,
    ) -> Result<bool, Error> {
        self.transact(|catalog, store| ensure_index_with(catalog, store, name, fields, options))
    }

    fn index<F: IndexFields>(&mut self, name: &str, fields: F) -> Result<bool, Error> {
        self.index_with(name, fields, PLAIN)
    }

    fn unique<F: IndexFields>(&mut self, name: &str, fields: F) -> Result<bool, Error> {
        self.index_with(name, fields, UNIQUE)
    }

    fn drop_index<F: IndexFields>(&mut self, name: &str, fields: F) -> bool {
        let fields = fields.into_fields();
        self.transact(|catalog, store| drop_index(catalog, store, name, &fields))
            .unwrap()
    }

    fn indexes(&self, name: &str) -> Vec<String> {
        let indexes = self.state.catalog.indexes(name);
        indexes.iter().map(|index| index.name()).collect()
    }

    fn names(&self) -> Vec<String> {
        let mut names = self.state.catalog.names();
        names.sort();
        names
    }

    fn check(&self) -> CheckReport {
        let pages = self.state.store.page_count();
        let mut free: Vec<PageId> = Vec::new();
        for page in 1..pages {
            if self.state.store.try_read_page(page).unwrap().is_none() {
                free.push(page);
            }
        }
        check(
            &self.state.catalog,
            &self.state.store,
            pages as usize,
            &Ok(free),
        )
    }

    fn assert_consistent(&self) {
        assert_eq!(self.check().problems, Vec::<String>::new());
    }

    fn compact(&mut self) -> Result<Compacted, Error> {
        let before = self.state.store.page_count();
        let mut image = MemoryStore::new();
        let catalog = rebuild(&self.state.catalog, &self.state.store, &mut image)?;
        let (compacted, replace) = Compacted::decide(before, image.page_count());
        if replace {
            self.state.store = image;
            self.state.catalog = catalog;
        }
        Ok(compacted)
    }
}

fn float(f: f64) -> Document {
    Document::Float(f.to_bits())
}

fn text(s: &str) -> Document {
    Document::String(s.to_string())
}

fn object(fields: &[(&str, Document)]) -> Document {
    let mut map = Fields::new();
    for (name, value) in fields {
        map.insert(name.to_string(), value.clone());
    }
    Document::Object(map)
}

fn user(name: &str, age: i64) -> Document {
    object(&[("name", text(name)), ("age", Document::Int(age))])
}

fn entry(key: &str, price: i64) -> Document {
    object(&[("key", text(key)), ("price", Document::Int(price))])
}

/// The value of a field.
fn at(doc: &Document, path: &str) -> Document {
    value_or_null(doc, path)
}

fn int_at(doc: &Document, path: &str) -> i64 {
    match at(doc, path) {
        Document::Int(n) => n,
        other => panic!("{other:?}"),
    }
}

fn text_at(doc: &Document, path: &str) -> String {
    match at(doc, path) {
        Document::String(s) => s,
        other => panic!("{other:?}"),
    }
}

fn age_filter(op: Op, age: i64) -> Filter {
    Filter::new().and(Condition::on("age", op, Document::Int(age)))
}

fn name_is(name: &str) -> Filter {
    Filter::new().eq("name", text(name))
}

fn by_age(order: SortOrder) -> Filter {
    Filter {
        sort: vec![Sort {
            field: "age".to_string(),
            order,
        }],
        ..Filter::default()
    }
}

fn duplicate<T: std::fmt::Debug>(result: Result<T, Error>) -> (DocId, DocId) {
    match result {
        Err(Error::DuplicateValue { id, existing, .. }) => (id, existing),
        other => panic!("expected DuplicateValue, got {other:?}"),
    }
}

fn users_db() -> Db {
    let mut db = Db::open();
    for (name, age) in [("Ada", 36), ("Grace", 45), ("Alan", 41), ("Edsger", 72)] {
        db.insert("users", user(name, age)).unwrap();
    }
    db
}

// Reading and writing one document.

#[test]
fn collection_insert_then_get_roundtrips() {
    let mut db = Db::open();
    let id = db.insert("users", text("Ada")).unwrap();
    assert!(db.get("users", &id) == Some(text("Ada")));
}

#[test]
fn get_on_unknown_id_is_none() {
    let mut db = Db::open();
    db.insert("users", Document::Int(1)).unwrap();
    assert!(db.get("users", &DocId([9; 16])).is_none());
}

#[test]
fn get_on_never_touched_collection_is_none() {
    let db = Db::open();
    assert!(db.get("ghosts", &DocId([1; 16])).is_none());
}

#[test]
fn update_replaces_content() {
    let mut db = Db::open();
    let id = db.insert("users", Document::Int(1)).unwrap();
    assert!(db.update("users", &id, Document::Int(2)).unwrap());
    assert!(db.get("users", &id) == Some(Document::Int(2)));
}

#[test]
fn update_on_unknown_id_returns_false() {
    let mut db = Db::open();
    assert!(!db
        .update("users", &DocId([9; 16]), Document::Int(1))
        .unwrap());
}

#[test]
fn delete_removes_it_from_get_and_find() {
    let mut db = Db::open();
    let id = db.insert("users", Document::Int(1)).unwrap();
    assert!(db.delete("users", &id).unwrap());

    assert!(db.get("users", &id).is_none());
    assert!(db.find("users", &Filter::default()).is_empty());
    assert!(
        !db.delete("users", &id).unwrap(),
        "second delete finds nothing"
    );
}

#[test]
fn find_filters_by_field() {
    let mut db = Db::open();
    db.insert("users", object(&[("age", Document::Int(10))]))
        .unwrap();
    db.insert("users", object(&[("age", Document::Int(30))]))
        .unwrap();
    assert_eq!(db.find("users", &age_filter(Op::Gte, 18)).len(), 1);
}

#[test]
fn insert_then_get_includes_the_id_field() {
    let mut db = Db::open();
    let id = db.insert("users", object(&[("name", text("Ada"))])).unwrap();
    let Some(Document::Object(found)) = db.get("users", &id) else {
        panic!("expected an Object back");
    };
    assert!(found.get("_id") == Some(&Document::Id(id)));
    assert!(found.get("name") == Some(&text("Ada")));
}

#[test]
fn find_also_includes_the_id_field() {
    let mut db = Db::open();
    let id = db.insert("users", object(&[("name", text("Ada"))])).unwrap();
    let found = db.find("users", &Filter::default());
    assert_eq!(found.len(), 1);
    let Document::Object(doc) = &found[0].1 else {
        panic!("expected an Object back");
    };
    assert!(doc.get("_id") == Some(&Document::Id(id)));
}

#[test]
fn insert_overwrites_a_caller_supplied_id_field() {
    let mut db = Db::open();
    let id = db
        .insert(
            "users",
            object(&[
                ("_id", Document::Id(DocId([0xFF; 16]))),
                ("name", text("Ada")),
            ]),
        )
        .unwrap();
    assert_ne!(
        id,
        DocId([0xFF; 16]),
        "the real id is always freshly generated"
    );
    let Some(Document::Object(found)) = db.get("users", &id) else {
        panic!("expected an Object back");
    };
    assert!(
        found.get("_id") == Some(&Document::Id(id)),
        "the bogus caller-supplied _id must be overwritten with the real one"
    );
}

#[test]
fn update_also_refreshes_the_id_field() {
    let mut db = Db::open();
    let id = db.insert("users", object(&[("name", text("Ada"))])).unwrap();
    assert!(db
        .update("users", &id, object(&[("name", text("Grace"))]))
        .unwrap());
    let Some(Document::Object(found)) = db.get("users", &id) else {
        panic!("expected an Object back");
    };
    assert!(found.get("_id") == Some(&Document::Id(id)));
    assert!(found.get("name") == Some(&text("Grace")));
}

#[test]
fn non_object_documents_are_unaffected_by_id_merging() {
    let mut db = Db::open();
    let id = db.insert("users", Document::Int(42)).unwrap();
    assert!(db.get("users", &id) == Some(Document::Int(42)));
}

#[test]
fn errors_read_as_what_went_wrong() {
    let (a, b) = (DocId([0x11; 16]), DocId([0x22; 16]));
    let one = "11111111-1111-1111-1111-111111111111";
    let two = "22222222-2222-2222-2222-222222222222";
    let users = || "users".to_string();
    let cases = [
        (
            Error::Io(IoError::new(ErrorKind::Other, "no luck".to_string())),
            "no luck".to_string(),
        ),
        (Error::Txn("txn".to_string()), "txn".to_string()),
        (Error::Document("doc".to_string()), "doc".to_string()),
        (
            Error::Poisoned,
            "the database file may be inconsistent after a failed write; reopen the database \
             to recover it from the write-ahead log"
                .to_string(),
        ),
        (
            Error::DuplicateId {
                collection: users(),
                id: a,
            },
            format!("collection \"users\" already has a document with id {one}"),
        ),
        (
            Error::DuplicateValue {
                collection: users(),
                field: "e\"mail".to_string(),
                id: a,
                existing: b,
            },
            format!(
                "collection \"users\" has a unique index on \"e\\\"mail\", and documents {two} \
                 and {one} would have the same value there"
            ),
        ),
        (
            Error::NotFound {
                collection: users(),
                id: b,
            },
            format!("collection \"users\" has no document with id {two}"),
        ),
        (
            Error::MultipleMatches {
                collection: users(),
                count: 12,
            },
            "upsert into \"users\": 12 documents match the filter, expected at most one"
                .to_string(),
        ),
        (
            Error::Import {
                line: 7,
                message: "not JSON".to_string(),
            },
            "import, line 7: not JSON".to_string(),
        ),
    ];
    for (error, text) in cases {
        assert_eq!(error.to_string(), text);
    }
}

#[test]
fn two_collections_coexist() {
    let mut db = Db::open();
    let ada = db.insert("users", text("Ada")).unwrap();
    let hello = db.insert("posts", text("hello")).unwrap();
    let (users, posts) = (db.get("users", &ada), db.get("posts", &hello));
    assert!(users == Some(text("Ada")) && posts == Some(text("hello")));
}

#[test]
fn two_collections_stay_independent() {
    let mut db = Db::open();
    let id = db.insert("users", text("Ada")).unwrap();
    assert!(db.get("posts", &id).is_none());
}

#[test]
fn documents_that_outgrow_their_page_stay_reachable() {
    let mut db = Db::open();
    let ids: Vec<DocId> = (0..20)
        .map(|_| db.insert("docs", Document::Binary(vec![1; 100])).unwrap())
        .collect();
    for (n, id) in ids.iter().enumerate() {
        assert!(db
            .update("docs", id, Document::Binary(vec![n as u8; 3000]))
            .unwrap());
    }
    db.reopen();
    for (n, id) in ids.iter().enumerate() {
        assert!(db.get("docs", id) == Some(Document::Binary(vec![n as u8; 3000])));
    }
    assert_eq!(db.find("docs", &Filter::default()).len(), 20);

    // Deleting everything frees the data pages for reuse by new ones.
    let pages_before = db.state.store.page_count();
    for id in &ids {
        assert!(db.delete("docs", id).unwrap());
    }
    for _ in 0..20 {
        db.insert("docs", Document::Binary(vec![9; 3000])).unwrap();
    }
    assert_eq!(db.state.store.page_count(), pages_before);
    assert_eq!(db.find("docs", &Filter::default()).len(), 20);
}

// Finding.

#[test]
fn find_with_ids_keeps_ids_paired_through_sort_and_limit() {
    let mut db = Db::open();
    let mut ids: Vec<(String, DocId)> = Vec::new();
    for (name, age) in [("Ada", 36), ("Grace", 45), ("Linus", 21), ("Ken", 30)] {
        let id = db.insert("users", user(name, age)).unwrap();
        ids.push((name.to_string(), id));
    }
    let filter = Filter {
        sort: vec![Sort {
            field: "age".to_string(),
            order: SortOrder::Desc,
        }],
        limit: Some(3),
        ..age_filter(Op::Gte, 25)
    };
    let found = db.find("users", &filter);
    let names: Vec<String> = found.iter().map(|(_, u)| text_at(u, "name")).collect();
    assert_eq!(names, ["Grace", "Ada", "Ken"]);
    for (id, user) in &found {
        assert!(ids.contains(&(text_at(user, "name"), *id)));
    }
}

#[test]
fn untyped_find_with_ids_covers_non_object_documents() {
    let mut db = Db::open();
    let a = db.insert("values", Document::Int(1)).unwrap();
    let b = db.insert("values", text("two")).unwrap();
    let mut found = db.find("values", &Filter::default());
    found.sort_by_key(|(id, _)| *id);
    let mut expected = vec![(a, Document::Int(1)), (b, text("two"))];
    expected.sort_by_key(|(id, _)| *id);
    assert!(found == expected);
    assert!(db.find("never_created", &Filter::default()).is_empty());
}

#[test]
fn typed_find_with_a_case_insensitive_contains() {
    let mut db = Db::open();
    for (name, age) in [("Ada Lovelace", 36), ("ada", 12), ("Grace Hopper", 45)] {
        db.insert("users", user(name, age)).unwrap();
    }
    let filter = age_filter(Op::Gt, 18).contains("name", text("ADA"));
    let found = db.find("users", &filter);
    assert_eq!(found.len(), 1);
    assert_eq!(text_at(&found[0].1, "name"), "Ada Lovelace");
    assert_eq!(int_at(&found[0].1, "age"), 36);
}

#[test]
fn find_one_returns_a_match_or_none() {
    let db = users_db();
    assert_eq!(first_only(name_is("Ada")).limit, Some(1));
    let find_one = |filter: Filter| {
        find_one(&db.state.catalog, &db.state.store, "users", filter)
            .unwrap()
            .map(|(_, doc)| (text_at(&doc, "name"), int_at(&doc, "age")))
    };
    assert_eq!(find_one(name_is("Alan")), Some(("Alan".to_string(), 41)));
    assert_eq!(find_one(name_is("Barbara")), None);
    // With a sort: the first in that order.
    assert_eq!(
        find_one(by_age(SortOrder::Asc)),
        Some(("Ada".to_string(), 36))
    );
    assert_eq!(
        find_one(by_age(SortOrder::Desc)),
        Some(("Edsger".to_string(), 72))
    );
}

#[test]
fn count_counts_matches_up_to_the_limit() {
    let mut db = users_db();
    assert_eq!(db.count("users", &Filter::default()), 4);
    assert_eq!(db.count("users", &age_filter(Op::Gt, 40)), 3);
    let limited = Filter {
        limit: Some(2),
        ..age_filter(Op::Gt, 40)
    };
    assert_eq!(db.count("users", &limited), 2);
    // Through an index, with a candidate the recheck must drop.
    db.index("users", "age").unwrap();
    assert_eq!(db.count("users", &age_filter(Op::Gt, 41)), 2);
    assert_eq!(db.count("nobody", &Filter::default()), 0);
}

#[test]
fn a_cursor_streams_and_sees_writes_made_meanwhile() {
    let mut db = users_db();
    let ids: Vec<DocId> = db
        .find("users", &Filter::default())
        .into_iter()
        .map(|(id, _)| id)
        .collect(); // _id order: Ada, Grace, Alan, Edsger

    let mut cursor = Cursor::open(
        &db.state.catalog,
        &db.state.store,
        "users",
        age_filter(Op::Gt, 40),
    )
    .unwrap();
    let (id, doc) = cursor
        .next(&db.state.catalog, &db.state.store)
        .unwrap()
        .unwrap();
    assert_eq!(id, ids[1]);
    assert!(doc == with_id(user("Grace", 45), id));

    assert!(db.delete("users", &ids[2]).unwrap()); // Alan: gone before he's read
    assert!(db.update("users", &ids[3], user("Edsger", 39)).unwrap()); // no longer matches
    assert!(db.update("users", &ids[0], user("Ada", 50)).unwrap()); // matches, but already passed
    db.insert("users", user("Barbara", 60)).unwrap(); // after the cursor was created

    assert!(cursor.next(&db.state.catalog, &db.state.store).is_none());

    let limited = Filter::new().limit(1);
    let mut cursor =
        Cursor::open(&db.state.catalog, &db.state.store, "users", limited).unwrap();
    let mut n = 0;
    while let Some(result) = cursor.next(&db.state.catalog, &db.state.store) {
        result.unwrap();
        n += 1;
    }
    assert_eq!(n, 1);
}

#[test]
fn a_sorted_cursor_yields_in_order() {
    let db = users_db();
    let mut cursor = Cursor::open(
        &db.state.catalog,
        &db.state.store,
        "users",
        by_age(SortOrder::Desc),
    )
    .unwrap();
    let mut ages = Vec::new();
    while let Some(result) = cursor.next(&db.state.catalog, &db.state.store) {
        ages.push(int_at(&result.unwrap().1, "age"));
    }
    assert_eq!(ages, [72, 45, 41, 36]);
}

#[test]
fn upsert_inserts_updates_or_refuses() {
    let mut db = users_db();
    let alan = db.find("users", &name_is("Alan"))[0].0;
    let put = |db: &mut Db, filter: Filter, doc: Document| {
        let id = UuidV7Generator.generate();
        db.transact(|catalog, store| upsert(catalog, store, "users", &filter, id, doc))
    };
    let updated = put(&mut db, name_is("Alan"), user("Alan", 42)).unwrap();
    assert!(matches!(updated, Upserted::Updated(id) if id == alan));
    assert!(db.get("users", &alan) == Some(with_id(user("Alan", 42), alan)));

    let Upserted::Inserted(barbara) =
        put(&mut db, name_is("Barbara"), user("Barbara", 80)).unwrap()
    else {
        panic!("expected an insert");
    };
    assert!(db.get("users", &barbara) == Some(with_id(user("Barbara", 80), barbara)));

    let err = put(&mut db, age_filter(Op::Gt, 40), user("X", 1)).unwrap_err();
    assert!(matches!(err, Error::MultipleMatches { count: 4, .. }));
    assert_eq!(db.count("users", &Filter::default()), 5, "nothing written");
}

#[test]
fn an_upsert_onto_a_taken_value_is_refused() {
    let mut db = users_db();
    assert!(db.unique("users", "name").unwrap());
    let ada = db.find("users", &name_is("Ada"))[0].0;
    let alan = db.find("users", &name_is("Alan"))[0].0;
    let refused = |db: &mut Db, filter: Filter, new_id: DocId| {
        let doc = user("Ada", 99);
        match db.transact(|catalog, store| upsert(catalog, store, "users", &filter, new_id, doc)) {
            Err(Error::DuplicateValue {
                collection,
                field,
                id,
                existing,
            }) => {
                assert_eq!(collection, "users");
                assert_eq!(field, "name");
                assert_eq!(existing, ada);
                id
            }
            other => panic!("expected DuplicateValue, got {other:?}"),
        }
    };
    // Alan's document can't take Ada's name, nor can a new one.
    let new_id = UuidV7Generator.generate();
    assert_eq!(refused(&mut db, name_is("Alan"), new_id), alan);
    assert_eq!(refused(&mut db, name_is("Nobody"), new_id), new_id);
    assert_eq!(db.count("users", &Filter::default()), 4);
    assert!(db.get("users", &alan) == Some(with_id(user("Alan", 41), alan)));
}

#[test]
fn a_batch_keeps_indexes_and_makes_only_the_collections_it_inserts_into() {
    let mut db = users_db();
    assert!(db.unique("users", "name").unwrap());
    let ada = db.find("users", &name_is("Ada"))[0].0;
    db.write(vec![
        WriteOp::Insert("logs".into(), UuidV7Generator.generate(), object(&[])),
        WriteOp::Delete("users".into(), ada),
    ])
    .unwrap();
    let index = &db.state.catalog.indexes("users")[0];
    assert_eq!(index.fields, vec!["name".to_string()]);
    assert!(index.unique && !index.sparse);
    assert!(db.state.catalog.indexes("logs").is_empty());
    assert_eq!(db.count("logs", &Filter::default()), 1);

    match db.write(vec![WriteOp::Delete("nowhere".into(), ada)]) {
        Err(Error::NotFound { collection, id }) => {
            assert_eq!(collection, "nowhere");
            assert_eq!(id, ada);
        }
        other => panic!("expected NotFound, got {other:?}"),
    }
    assert!(db.state.catalog.get("nowhere").is_none());
}

#[test]
fn only_a_changed_document_is_written() {
    let mut db = users_db();
    let (id, doc) = db.find("users", &name_is("Ada")).remove(0);
    let put = |db: &mut Db, new: Document| {
        db.transact(|catalog, store| {
            write_if_changed(catalog, store, "users", id, &doc, new)
        })
        .unwrap()
    };
    assert!(!put(&mut db, doc.clone()));
    assert!(put(&mut db, user("Ada", 37)));
    assert_eq!(int_at(&db.get("users", &id).unwrap(), "age"), 37);
}

#[test]
fn conditions_combine() {
    let db = users_db();
    let names = |filter: Filter| -> Vec<String> {
        db.find("users", &filter.sort_asc("name"))
            .iter()
            .map(|(_, doc)| text_at(doc, "name"))
            .collect()
    };
    let either = Filter::new().any_of(vec![
        Condition::eq("name", text("Ada")),
        Condition::gte("age", Document::Int(70)),
    ]);
    assert_eq!(names(either), ["Ada", "Edsger"]);
    let neither = Filter::new().and(Condition::Not(Box::new(Condition::All(vec![
        Condition::gt("age", Document::Int(40)),
        Condition::ne("name", text("Grace")),
    ]))));
    assert_eq!(names(neither), ["Ada", "Grace"]);
    assert_eq!(
        names(Filter::new().lt("age", Document::Int(42)).lte("age", float(41.0))),
        ["Ada", "Alan"]
    );
}

fn change_many(
    db: &mut Db,
    name: &str,
    filter: &Filter,
    mut change: impl FnMut(&mut Document),
) -> Result<usize, Error> {
    let found = db.find(name, filter);
    let mut new: Vec<Document> = Vec::new();
    for (_, doc) in &found {
        let mut next = doc.clone();
        change(&mut next);
        new.push(next);
    }
    db.transact(|catalog, store| update_many(catalog, store, name, &found, &new))
}

fn put(doc: &mut Document, field: &str, value: Document) {
    if let Document::Object(fields) = doc {
        fields.insert(field.to_string(), value);
    }
}

#[test]
fn update_many_changes_what_find_would_return() {
    let mut db = Db::open();
    let ops = (0..60i64)
        .map(|rank| {
            let status = if rank < 40 { "Queued" } else { "Done" };
            let doc = object(&[
                ("name", text(&format!("task {rank}"))),
                ("status", text(status)),
                ("rank", Document::Int(rank)),
            ]);
            WriteOp::Insert("tasks".to_string(), UuidV7Generator.generate(), doc)
        })
        .collect();
    db.write(ops).unwrap();
    db.index("tasks", "status").unwrap();
    db.unique("tasks", "name").unwrap();
    let count = |db: &Db, status: &str| db.count("tasks", &Filter::new().eq("status", text(status)));

    // Sort and limit count, and the change sees the matches in order.
    let mut seen = Vec::new();
    let first_five = Filter::new()
        .eq("status", text("Queued"))
        .sort_asc("rank")
        .limit(5);
    let n = change_many(&mut db, "tasks", &first_five, |task| {
        seen.push(int_at(task, "rank"));
        put(task, "status", text("Running"));
    })
    .unwrap();
    assert_eq!((n, seen), (5, vec![0, 1, 2, 3, 4]));
    // The index moved with them.
    let running = Filter::new().eq("status", text("Running"));
    assert_eq!(
        db.explain("tasks", &running),
        QueryPlan::Index {
            field: "status".to_string()
        }
    );
    assert_eq!((count(&db, "Running"), count(&db, "Queued")), (5, 35));

    // Matches left as they were aren't written, nor counted.
    let done = Filter::new().eq("status", text("Done"));
    let n = change_many(&mut db, "tasks", &done, |task| {
        put(task, "status", text("Done"))
    });
    assert_eq!(n.unwrap(), 0);

    // One change a unique index refuses rolls back all of them.
    let queued = Filter::new().eq("status", text("Queued"));
    let all_same = change_many(&mut db, "tasks", &queued, |task| {
        put(task, "name", text("same"));
        put(task, "status", text("Renamed"));
    });
    assert!(
        matches!(all_same, Err(Error::DuplicateValue { .. })),
        "{all_same:?}"
    );
    assert_eq!((count(&db, "Queued"), count(&db, "Renamed")), (35, 0));

    // An `_id` stays what it was, whatever the change does to it.
    let seven = Filter::new().eq("rank", 7.into());
    let id = db.find("tasks", &seven)[0].0;
    let n = change_many(&mut db, "tasks", &seven, |doc| {
        put(doc, "_id", Document::Id(DocId([0; 16])));
        put(doc, "rank", Document::Int(700));
    });
    assert_eq!(n.unwrap(), 1);
    assert_eq!(int_at(&db.get("tasks", &id).unwrap(), "rank"), 700);
    db.assert_consistent();
}

// Batches.

#[test]
fn later_ops_can_target_a_document_inserted_earlier_in_the_batch() {
    let mut db = Db::open();
    let mut batch = Batch::new();
    let kept = batch.insert("entries", &UuidV7Generator, entry("kept", 1));
    batch.update("entries", &kept, entry("kept", 2));
    let gone = batch.insert("entries", &UuidV7Generator, entry("gone", 1));
    batch.delete("entries", &gone);
    assert_eq!(batch.len(), 4);
    assert!(!batch.is_empty());
    db.write(batch.into_ops()).unwrap();

    assert!(db.get("entries", &kept) == Some(with_id(entry("kept", 2), kept)));
    assert!(db.get("entries", &gone).is_none());
}

#[test]
fn a_failing_op_rolls_back_the_whole_batch() {
    let mut db = Db::open();
    let existing = db.insert("entries", entry("a", 10)).unwrap();

    let mut batch = Batch::new();
    batch.update("entries", &existing, entry("a", 99));
    let logged = batch.insert("log", &UuidV7Generator, text("synced"));
    let missing = DocId([7; 16]);
    batch.update("entries", &missing, entry("x", 1));

    let Err(Error::NotFound { collection, id }) = db.write(batch.into_ops()) else {
        panic!("expected NotFound");
    };
    assert_eq!((collection.as_str(), id), ("entries", missing));
    assert!(db.get("entries", &existing) == Some(with_id(entry("a", 10), existing)));
    assert!(db.get("log", &logged).is_none());
}

#[test]
fn a_dropped_batch_writes_nothing() {
    let db = Db::open();
    let mut batch = Batch::new();
    let id = batch.insert("entries", &UuidV7Generator, entry("a", 1));
    drop(batch);
    assert!(db.get("entries", &id).is_none());
}

#[test]
fn empty_batch_is_a_harmless_no_op() {
    let mut db = Db::open();
    db.write(vec![]).unwrap();
    assert!(db.names().is_empty());
}

#[test]
fn ops_on_duplicate_or_missing_ids_fail_the_whole_batch() {
    let mut db = Db::open();
    let insert = |name: &str, id: u8, value: i64| {
        WriteOp::Insert(name.to_string(), DocId([id; 16]), Document::Int(value))
    };
    db.write(vec![insert("users", 1, 1)]).unwrap();
    let missing = DocId([9; 16]);
    let cases = [
        (insert("users", 1, 2), "duplicate insert"),
        (
            WriteOp::Update("users".to_string(), missing, Document::Int(3)),
            "update of a missing id",
        ),
        (
            WriteOp::Delete("users".to_string(), missing),
            "delete of a missing id",
        ),
        (
            WriteOp::Update("nowhere".to_string(), missing, Document::Int(3)),
            "update in a missing collection",
        ),
    ];
    for (op, case) in cases {
        // A valid op first, so the test also proves it's rolled back.
        let result = db.write(vec![insert("posts", 5, 5), op]);
        match (case, result) {
            ("duplicate insert", Err(Error::DuplicateId { collection, id })) => {
                assert_eq!((collection.as_str(), id), ("users", DocId([1; 16])));
            }
            (_, Err(Error::NotFound { id, .. })) if case != "duplicate insert" => {
                assert_eq!(id, missing);
            }
            (_, other) => panic!("{case}: unexpected {other:?}"),
        }
        assert!(
            db.get("posts", &DocId([5; 16])).is_none(),
            "{case}: batch not rolled back"
        );
    }
    assert!(db.get("users", &DocId([1; 16])) == Some(Document::Int(1)));
}

#[test]
fn write_batch_applies_ops_across_different_collections() {
    let mut db = Db::open();
    db.write(vec![
        WriteOp::Insert("a".to_string(), DocId([1; 16]), Document::Int(1)),
        WriteOp::Insert("b".to_string(), DocId([1; 16]), Document::Int(2)),
    ])
    .unwrap();
    assert!(db.get("a", &DocId([1; 16])) == Some(Document::Int(1)));
    assert!(db.get("b", &DocId([1; 16])) == Some(Document::Int(2)));
}

#[test]
fn a_change_that_is_not_logged_is_taken_back() {
    let mut db = Db::open();
    let op = WriteOp::Insert("a".to_string(), DocId([1; 16]), Document::Int(1));
    let Ok(Applied::Log { started, pages, .. }) = db.state.stage_batch(&vec![op]) else {
        panic!("a change to log");
    };
    assert!(!pages.is_empty());
    let failed = IoError::new(ErrorKind::Other, "no".to_string());
    assert!(matches!(
        db.state.logged(started, (), Err(failed)),
        Logged::Failed(_)
    ));
    assert!(db.get("a", &DocId([1; 16])).is_none());
    // The log couldn't be emptied: every change fails from now on.
    db.state.emptied(false);
    assert!(matches!(db.write(vec![]), Err(Error::Poisoned)));
}

#[test]
fn options_set_the_cache_and_the_checkpoint() {
    let options = OpenOptions::default().cache_size(100).checkpoint_pages(7);
    assert_eq!(options.cached_bytes(), 100);
    assert_eq!(options.waiting_pages(), 7);
    assert_eq!(OpenOptions::default().cached_bytes(), 256 << 20);
    assert_eq!(OpenOptions::default().waiting_pages(), 1000);
}

#[test]
fn writes_nested_too_deep_are_refused() {
    let mut db = Db::open();
    let nest =
        |levels: usize| (0..levels).fold(Document::Int(1), |inner, _| Document::Array(vec![inner]));
    let wrap = |inner: Document| object(&[("a", inner)]);
    // The document is the first level, its field's arrays the rest.
    let id = db.insert("docs", wrap(nest(MAX_NESTING - 1))).unwrap();

    let refused = |e: Error| match e {
        Error::Io(e) => {
            assert_eq!(e.kind(), ErrorKind::InvalidInput);
            assert!(e.to_string().contains("deeper than the limit of 64"));
        }
        other => panic!("{other:?}"),
    };
    refused(db.insert("docs", wrap(nest(MAX_NESTING))).unwrap_err());
    refused(db.update("docs", &id, wrap(nest(MAX_NESTING))).unwrap_err());
    let ops = [wrap(Document::Int(2)), wrap(nest(100))]
        .into_iter()
        .enumerate()
        .map(|(n, doc)| WriteOp::Insert("docs".into(), DocId([n as u8 + 1; 16]), doc))
        .collect();
    refused(db.write(ops).unwrap_err());
    assert_eq!(
        db.count("docs", &Filter::new()),
        1,
        "the batch rolled back whole"
    );
    let Some(Document::Object(stored)) = db.get("docs", &id) else {
        panic!("the first insert is there");
    };
    assert!(*stored.get("a").unwrap() == nest(MAX_NESTING - 1));
}

// Indexes.

#[test]
fn ensure_and_drop_index_are_idempotent_and_drop_frees_the_tree() {
    let mut db = Db::open();
    let ops = (0..1000)
        .map(|age| {
            WriteOp::Insert(
                "users".to_string(),
                UuidV7Generator.generate(),
                user(&format!("user {age}"), age),
            )
        })
        .collect();
    db.write(ops).unwrap();
    let adults = age_filter(Op::Gte, 18);

    assert!(db.index("users", "age").unwrap());
    assert!(!db.index("users", "age").unwrap());
    assert!(db.index("users", "name").unwrap());
    assert_eq!(db.indexes("users"), ["age", "name"]);
    assert_eq!(
        db.explain("users", &adults),
        QueryPlan::Index {
            field: "age".to_string()
        }
    );
    let with_indexes = db.state.store.page_count();

    assert!(db.drop_index("users", "age"));
    assert!(!db.drop_index("users", "age"));
    assert_eq!(db.indexes("users"), ["name"]);
    assert_eq!(db.explain("users", &adults), QueryPlan::Scan);
    assert_eq!(db.find("users", &adults).len(), 982);

    // The dropped index's pages are reused, not appended after.
    assert!(db.index("users", "age").unwrap());
    assert_eq!(db.state.store.page_count(), with_indexes);
    assert_eq!(db.find("users", &adults).len(), 982);
    db.assert_consistent();
}

#[test]
fn an_index_can_be_declared_before_the_collection_exists() {
    let mut db = Db::open();
    assert!(db.index("users", "name").unwrap());
    db.insert("users", user("Ada", 36)).unwrap();
    assert_eq!(db.find("users", &name_is("Ada")).len(), 1);
}

#[test]
fn id_malformed_and_overlong_paths_cannot_be_indexed() {
    let mut db = Db::open();
    let invalid = ["_id", "_id.x", "", ".", "a.", ".a", "a..b"].map(String::from);
    for field in invalid.into_iter().chain(["f".repeat(256)]) {
        let Err(Error::Io(err)) = db.index("docs", &field) else {
            panic!("{field:?} must be rejected");
        };
        assert_eq!(err.kind(), ErrorKind::InvalidInput);
    }
    assert!(db.indexes("docs").is_empty());
}

#[test]
fn index_paths_take_brackets_only_as_a_whole_step_suffix() {
    let mut db = Db::open();
    for bad in [
        "tags[*", "tags[1]", "ta[*]gs", "[*]", "a.[*]", "_id[*]", "tags[]",
    ] {
        assert!(db.index("docs", bad).is_err(), "{bad}");
    }
    for good in ["tags[*]", "items[*].n", "grid[*][*]", "a.b[*].c"] {
        assert!(db.index("docs", good).unwrap(), "{good}");
    }
}

#[test]
fn a_unique_multikey_index_refuses_an_element_another_document_has() {
    let mut db = Db::open();
    let aliases = |names: &[&str]| {
        let names = names.iter().map(|n| Document::from(*n)).collect();
        object(&[("aliases", Document::Array(names))])
    };
    db.unique("users", "aliases[*]").unwrap();
    let ada = db.insert("users", aliases(&["ada", "al"])).unwrap();
    db.insert("users", aliases(&["bo", "bo"])).unwrap();
    db.insert("users", aliases(&[])).unwrap();
    db.insert("users", aliases(&[])).unwrap();
    match db.insert("users", aliases(&["cy", "al"])) {
        Err(Error::DuplicateValue {
            existing, field, ..
        }) => {
            assert_eq!((existing, field.as_str()), (ada, "aliases[*]"));
        }
        other => panic!("expected DuplicateValue, got {other:?}"),
    }
    // Ada gives "al" up; then someone else may have it.
    assert!(db.update("users", &ada, aliases(&["ada"])).unwrap());
    db.insert("users", aliases(&["cy", "al"])).unwrap();
    // Ada keeps what she has: her own elements don't collide.
    assert!(db.update("users", &ada, aliases(&["ada", "ada2"])).unwrap());
    db.assert_consistent();

    // Built over existing documents that share an element: refused.
    db.insert("other", aliases(&["x", "y"])).unwrap();
    db.insert("other", aliases(&["y"])).unwrap();
    assert!(matches!(
        db.unique("other", "aliases[*]"),
        Err(Error::DuplicateValue { .. })
    ));
    assert_eq!(db.indexes("other"), Vec::<String>::new());
}

#[test]
fn a_unique_multikey_index_checks_every_element_under_a_shared_key() {
    let mut db = Db::open();
    let long = |end: &str| Document::String("x".repeat(1200) + end);
    let aliases = |names: Vec<Document>| object(&[("aliases", Document::Array(names))]);
    db.unique("users", "aliases[*]").unwrap();
    db.insert("users", aliases(vec![long("b")])).unwrap();
    for both in [vec![long("a"), long("b")], vec![long("b"), long("a")]] {
        assert!(matches!(
            db.insert("users", aliases(both)),
            Err(Error::DuplicateValue { .. })
        ));
    }
    db.insert("users", aliases(vec![long("a"), long("c")]))
        .unwrap();
    db.assert_consistent();
}

#[test]
fn an_update_may_not_take_a_value_under_a_key_it_keeps() {
    let mut db = Db::open();
    let long = |end: &str| object(&[("k", Document::String("x".repeat(1200) + end))]);
    db.unique("docs", "k").unwrap();
    let a = db.insert("docs", long("a")).unwrap();
    let b = db.insert("docs", long("b")).unwrap();
    // Both have the same key; the value is still taken.
    assert_eq!(duplicate(db.update("docs", &b, long("a"))), (b, a));
    assert!(db.update("docs", &b, long("c")).unwrap());
    db.assert_consistent();
}

#[test]
fn sorting_by_elements_reads_each_document_once() {
    let mut db = Db::open();
    for tags in [vec![3, 1], vec![2], vec![5, 4, 5]] {
        let tags = tags.into_iter().map(Document::from).collect();
        db.insert("docs", object(&[("tags", Document::Array(tags))]))
            .unwrap();
    }
    db.index("docs", "tags[*]").unwrap();
    let sorted = Filter::new().sort_desc("tags[*]").limit(10);
    assert_ne!(
        db.explain("docs", &sorted),
        QueryPlan::IndexOrder {
            field: "tags[*]".into()
        }
    );
    let found = db.find("docs", &sorted);
    let ids: Vec<DocId> = found.iter().map(|(id, _)| *id).collect();
    let mut in_order = ids.clone();
    in_order.sort();
    assert_eq!(ids, in_order);
}

fn task(status: &str, created: i64, tenant: &str) -> Document {
    object(&[
        ("status", text(status)),
        ("created", Document::Int(created)),
        ("tenant", text(tenant)),
    ])
}

fn tasks_db(created: impl Fn(i64) -> i64, tenant: impl Fn(i64) -> i64) -> Db {
    let mut db = Db::open();
    let ops = (0..3000i64)
        .map(|n| {
            let status = ["Queued", "Running", "Done"][(n * 7 % 3) as usize];
            WriteOp::Insert(
                "tasks".to_string(),
                UuidV7Generator.generate(),
                task(status, created(n), &format!("t{}", tenant(n))),
            )
        })
        .collect();
    db.write(ops).unwrap();
    db
}

#[test]
fn the_oldest_queued_tasks_are_read_through_status_and_created() {
    let mut db = tasks_db(|n| (n * 7919) % 3000, |n| n % 5);
    let oldest_queued = Filter::new()
        .eq("status", text("Queued"))
        .sort_asc("created")
        .limit(20);
    let expected = db.scan("tasks", &oldest_queued);
    assert_eq!(expected.len(), 20);

    db.index("tasks", "status").unwrap();
    db.index("tasks", "created").unwrap();
    assert_eq!(
        db.explain("tasks", &oldest_queued),
        QueryPlan::Index {
            field: "status".into()
        }
    );
    assert!(db.find("tasks", &oldest_queued) == expected);
    db.index("tasks", ["status", "created"]).unwrap();
    assert_eq!(
        db.explain("tasks", &oldest_queued),
        QueryPlan::IndexOrder {
            field: "(status, created)".into()
        }
    );
    assert!(db.find("tasks", &oldest_queued) == expected);

    // Newest first, and a range on `created` within the status.
    let newest = Filter::new()
        .eq("status", text("Done"))
        .lt("created", Document::Int(100))
        .sort_desc("created")
        .limit(5);
    let created: Vec<i64> = db
        .find("tasks", &newest)
        .iter()
        .map(|(_, t)| int_at(t, "created"))
        .collect();
    let mut all_done: Vec<i64> = db
        .find("tasks", &Filter::new().eq("status", text("Done")))
        .iter()
        .map(|(_, t)| int_at(t, "created"))
        .filter(|c| *c < 100)
        .collect();
    all_done.sort_unstable_by(|a, b| b.cmp(a));
    assert_eq!(created, all_done[..5]);
    db.assert_consistent();
}

#[test]
fn tasks_sort_by_status_then_by_created() {
    // Each `created` 5 times, so it has ties.
    let mut db = tasks_db(|n| (n * 7919) % 600, |n| n * 13 % 5);
    db.index("tasks", ["status", "created"]).unwrap();
    db.index("tasks", "created").unwrap();
    let cases = [
        (
            Filter::new().sort_asc("status").sort_asc("created").limit(20),
            "(status, created)",
        ),
        (
            Filter::new()
                .sort_desc("status")
                .sort_desc("created")
                .limit(20),
            "(status, created)",
        ),
        // "Done" first, newest first: the 1000 done tasks are sorted.
        (
            Filter::new()
                .sort_asc("status")
                .sort_desc("created")
                .limit(20),
            "(status, created)",
        ),
        // Five tasks per `created`: each five sorted by tenant.
        (
            Filter::new()
                .sort_asc("created")
                .sort_desc("tenant")
                .limit(12),
            "created",
        ),
    ];
    for (filter, plan) in cases {
        assert_eq!(
            db.explain("tasks", &filter),
            QueryPlan::IndexOrder { field: plan.into() },
            "{filter:?}"
        );
        assert!(
            db.find("tasks", &filter) == db.scan("tasks", &filter),
            "{filter:?}"
        );
    }
}

#[test]
fn unordered_values_after_the_index_are_sorted_by_the_next_key() {
    let mut db = Db::open();
    db.index("docs", "v").unwrap();
    for w in 0..15i64 {
        let v = match w < 5 {
            true => Document::Int(w),
            false => Document::Array(vec![Document::Int(w)]),
        };
        db.insert("docs", object(&[("v", v), ("w", Document::Int(w))]))
            .unwrap();
    }
    let f = Filter::new().sort_asc("v").sort_desc("w").limit(8);
    assert_eq!(
        db.explain("docs", &f),
        QueryPlan::IndexOrder { field: "v".into() }
    );
    let w: Vec<i64> = db
        .find("docs", &f)
        .iter()
        .map(|(_, d)| int_at(d, "w"))
        .collect();
    assert_eq!(w, [0, 1, 2, 3, 4, 14, 13, 12]);
    assert!(db.find("docs", &f) == db.scan("docs", &f));
}

#[test]
fn a_descending_compound_walk_puts_unordered_values_last() {
    let mut db = Db::open();
    db.index("docs", ["k", "v"]).unwrap();
    let values = [
        Document::Int(1),
        Document::Array(vec![]),
        Document::Null,
        text("a"),
        float(f64::NAN),
        Document::Bool(true),
        float(2.5),
        Document::Int(i64::MAX),
        Document::Int(i64::MAX - 1),
    ];
    for v in values {
        db.insert("docs", object(&[("k", Document::Int(1)), ("v", v)]))
            .unwrap();
    }
    for (filter, limit) in [
        (Filter::new().sort_desc("v"), 4),
        (Filter::new().sort_desc("v"), 9),
        (Filter::new().sort_asc("v"), 9),
        (Filter::new().sort_desc("v"), 100),
    ] {
        let filter = filter.eq("k", Document::Int(1)).limit(limit);
        assert_eq!(
            db.explain("docs", &filter),
            QueryPlan::IndexOrder {
                field: "(k, v)".into()
            }
        );
        let found = db.find("docs", &filter);
        let expected = db.scan("docs", &filter);
        let bytes = |list: &[(DocId, Document)]| -> Vec<(DocId, Vec<u8>)> {
            list.iter()
                .map(|(id, doc)| (*id, encode_document(doc)))
                .collect()
        };
        assert_eq!(bytes(&found), bytes(&expected));
    }
}

#[test]
fn a_limit_stops_the_reading_when_an_index_gives_the_order() {
    let mut db = Db::open();
    let ops = (0..1000i64)
        .map(|age| {
            let doc = user(&format!("user {age}"), age);
            WriteOp::Insert("users".to_string(), UuidV7Generator.generate(), doc)
        })
        .collect();
    db.write(ops).unwrap();
    let oldest = |limit| Filter {
        limit,
        ..by_age(SortOrder::Desc)
    };
    // Without an index every document is read, then sorted.
    assert_eq!(db.explain("users", &oldest(Some(5))), QueryPlan::Scan);
    assert_eq!(db.find("users", &oldest(Some(5))).len(), 5);

    db.index("users", "age").unwrap();
    assert_eq!(
        db.explain("users", &oldest(Some(5))),
        QueryPlan::IndexOrder {
            field: "age".to_string()
        }
    );
    let ages: Vec<i64> = db
        .find("users", &oldest(Some(5)))
        .iter()
        .map(|(_, u)| int_at(u, "age"))
        .collect();
    assert_eq!(ages, [999, 998, 997, 996, 995]);

    let first = find_one(
        &db.state.catalog,
        &db.state.store,
        "users",
        by_age(SortOrder::Asc),
    )
    .unwrap();
    assert_eq!(first.map(|(_, u)| int_at(&u, "age")), Some(0));

    // A range on the sort field narrows the walk, and rules out the values no
    // index holds.
    let young = Filter {
        sort: by_age(SortOrder::Asc).sort,
        limit: Some(50),
        ..age_filter(Op::Lt, 10)
    };
    assert_eq!(db.find("users", &young).len(), 10);

    // Without such a range, running out means one scan for them: here a
    // document whose age is an array, sorted after the rest.
    db.insert("users", object(&[("age", Document::Array(vec![]))]))
        .unwrap();
    let all = db.find(
        "users",
        &Filter {
            limit: Some(2000),
            ..by_age(SortOrder::Desc)
        },
    );
    assert_eq!(all.len(), 1001);
    assert!(matches!(
        at(&all.last().unwrap().1, "age"),
        Document::Array(_)
    ));
    // Without a limit, nothing stops early: the plan is a scan.
    assert_eq!(db.explain("users", &oldest(None)), QueryPlan::Scan);
    assert!(db.find("users", &oldest(Some(0))).is_empty());
}

#[test]
fn a_unique_compound_index_refuses_only_the_same_values_in_every_field() {
    let mut db = Db::open();
    let user = |tenant: Document, email: &str| object(&[("tenant", tenant), ("email", text(email))]);
    db.unique("users", ["tenant", "email"]).unwrap();
    let ada = db.insert("users", user("t1".into(), "ada@x")).unwrap();
    db.insert("users", user("t2".into(), "ada@x")).unwrap();
    db.insert("users", user("t1".into(), "bob@x")).unwrap();
    match db.insert("users", user("t1".into(), "ada@x")) {
        Err(Error::DuplicateValue {
            existing, field, ..
        }) => {
            assert_eq!((existing, field.as_str()), (ada, "(tenant, email)"));
        }
        other => panic!("expected DuplicateValue, got {other:?}"),
    }
    // Equal as `Eq` sees it: `1` and `1.0`.
    db.insert("users", user(1.into(), "cy@x")).unwrap();
    assert!(db.insert("users", user(float(1.0), "cy@x")).is_err());
    // A null, or a missing field, in any of them: exempt.
    for _ in 0..2 {
        db.insert("users", user(Document::Null, "ada@x")).unwrap();
        db.insert("users", object(&[("email", "ada@x".into())]))
            .unwrap();
    }
    // Ada moves to t3; then t1's ada@x is free again.
    assert!(db
        .update("users", &ada, user("t3".into(), "ada@x"))
        .unwrap());
    db.insert("users", user("t1".into(), "ada@x")).unwrap();
    db.assert_consistent();

    // Built over documents that share both values: refused.
    db.insert("other", user("t".into(), "e")).unwrap();
    db.insert("other", user("t".into(), "e")).unwrap();
    assert!(matches!(
        db.unique("other", ["tenant", "email"]),
        Err(Error::DuplicateValue { .. })
    ));
    assert_eq!(db.indexes("other"), Vec::<String>::new());
}

#[test]
fn long_strings_in_a_compound_index_are_found_by_every_condition() {
    let mut db = Db::open();
    let long = |end: &str| Document::String("x".repeat(800) + end);
    for (a, end) in [(1, "a"), (1, "b"), (1, "c"), (2, "b")] {
        db.insert("docs", object(&[("a", a.into()), ("b", long(end))]))
            .unwrap();
    }
    db.index("docs", ["a", "b"]).unwrap();
    let ends = |f: Filter| -> Vec<String> {
        db.find("docs", &f)
            .iter()
            .map(|(_, doc)| text_at(doc, "b")[800..].to_string())
            .collect()
    };
    let a1 = || Filter::new().eq("a", 1.into());
    assert_eq!(ends(a1().eq("b", long("b"))), ["b"]);
    assert_eq!(ends(a1().gt("b", long("a")).sort_asc("b")), ["b", "c"]);
    assert_eq!(ends(a1().gte("b", long("b")).sort_asc("b")), ["b", "c"]);
    assert_eq!(ends(a1().lt("b", long("c")).sort_asc("b")), ["a", "b"]);
    assert_eq!(ends(a1().lte("b", long("b")).sort_desc("b")), ["b", "a"]);
    let newest = a1().sort_desc("b").limit(2);
    assert_eq!(
        db.explain("docs", &newest),
        QueryPlan::IndexOrder {
            field: "(a, b)".into()
        }
    );
    assert_eq!(ends(newest), ["c", "b"]);
    assert_eq!(
        db.explain("docs", &a1().gt("b", long("a"))),
        QueryPlan::Index {
            field: "(a, b)".into()
        }
    );
}

#[test]
fn an_or_of_indexed_values_reads_just_those() {
    let mut db = Db::open();
    let ops = (0..300i64)
        .map(|seen| {
            let status = ["Queued", "Running", "Complete"][(seen % 3) as usize];
            WriteOp::Insert(
                "runs".to_string(),
                UuidV7Generator.generate(),
                object(&[("status", text(status)), ("seen", Document::Int(seen))]),
            )
        })
        .collect();
    db.write(ops).unwrap();
    db.index("runs", "status").unwrap();

    let active = Filter::new()
        .any_of(vec![
            Condition::eq("status", text("Queued")),
            Condition::eq("status", text("Running")),
        ])
        .and(Condition::Not(Box::new(Condition::lt("seen", 30.into()))));
    assert_eq!(
        db.explain("runs", &active),
        QueryPlan::IndexUnion {
            fields: vec!["status".to_string(), "status".to_string()]
        }
    );
    let found = db.find("runs", &active);
    assert_eq!(found.len(), 180);
    assert!(found
        .iter()
        .all(|(_, r)| text_at(r, "status") != "Complete" && int_at(r, "seen") >= 30));
    assert_eq!(db.count("runs", &active), 180);
}

/// A document that two of the values lead to comes once.
#[test]
fn an_or_over_two_indexes_gives_each_document_once() {
    let mut db = Db::open();
    for n in 0..100 {
        db.insert("runs", object(&[("n", n.into()), ("m", (n % 7).into())]))
            .unwrap();
    }
    db.index("runs", "n").unwrap();
    db.index("runs", "m").unwrap();
    let either = Filter::new().any_of(vec![
        Condition::eq("n", 4.into()),
        Condition::eq("m", 4.into()),
    ]);
    assert_eq!(
        db.explain("runs", &either),
        QueryPlan::IndexUnion {
            fields: vec!["n".to_string(), "m".to_string()]
        }
    );
    assert_eq!(db.find("runs", &either).len(), 14);
}

#[test]
fn delete_many_deletes_what_find_would_return() {
    let mut db = Db::open();
    for age in 0..100 {
        db.insert("users", user(&format!("user {age}"), age)).unwrap();
    }
    db.index("users", "age").unwrap();
    db.unique("users", "name").unwrap();
    let ages = |db: &Db| -> Vec<i64> {
        let mut ages: Vec<i64> = db
            .find("users", &Filter::new())
            .iter()
            .map(|(_, u)| int_at(u, "age"))
            .collect();
        ages.sort();
        ages
    };
    let gone = |db: &mut Db, name: &str, filter: Filter| {
        db.transact(|catalog, store| delete_many(catalog, store, name, &filter))
            .unwrap()
    };

    assert_eq!(gone(&mut db, "users", Filter::new().lt("age", 18.into())), 18);
    assert_eq!(ages(&db).first(), Some(&18));
    // Sort and limit count: the five youngest left.
    assert_eq!(
        gone(&mut db, "users", Filter::new().sort_asc("age").limit(5)),
        5
    );
    assert_eq!(ages(&db).first(), Some(&23));
    let either = Filter::new().any_of(vec![
        Condition::eq("name", text("user 50")),
        Condition::eq("age", 60.into()),
    ]);
    assert_eq!(gone(&mut db, "users", either), 2);
    assert_eq!(
        gone(&mut db, "users", Filter::new().eq("age", 500.into())),
        0
    );
    assert_eq!(ages(&db).len(), 75);
    // Indexes lost their entries: a deleted unique value is free again,
    // and a query through the age index finds nothing deleted.
    db.insert("users", user("user 50", 50)).unwrap();
    assert_eq!(db.count("users", &Filter::new().lt("age", 23.into())), 0);

    // Nothing to delete in a collection that isn't there, and it
    // isn't created.
    assert_eq!(gone(&mut db, "nobody", Filter::new()), 0);
    assert_eq!(db.names(), ["users"]);
    db.assert_consistent();
}

#[test]
fn a_unique_index_refuses_equal_values_and_rolls_back_the_whole_batch() {
    let email = |s: &str| object(&[("email", text(s))]);
    let mut db = Db::open();
    assert!(db.unique("docs", "email").unwrap());
    assert!(!db.unique("docs", "email").unwrap());
    assert!(db.state.catalog.indexes("docs")[0].unique);

    let ada = db.insert("docs", email("ada@x")).unwrap();
    let (id, existing) = duplicate(db.insert("docs", email("ada@x")));
    assert_eq!(existing, ada);
    assert_ne!(id, ada);
    // Equal as `Eq` sees it: case matters.
    let bob = db.insert("docs", email("ADA@x")).unwrap();
    assert_eq!(db.count("docs", &Filter::default()), 2);

    // The first insert of a failing batch is rolled back too.
    let insert = |doc| WriteOp::Insert("docs".into(), UuidV7Generator.generate(), doc);
    duplicate(db.write(vec![insert(email("cy@x")), insert(email("cy@x"))]));
    assert_eq!(db.count("docs", &Filter::default()), 2);

    // An update onto a taken value fails and changes nothing...
    duplicate(db.update("docs", &bob, email("ada@x")));
    assert!(db.get("docs", &bob) == Some(with_id(email("ADA@x"), bob)));
    // ...keeping one's own value is fine, even when the document
    // grows and moves...
    let mut grown = email("ada@x");
    if let Document::Object(fields) = &mut grown {
        fields.insert("pad".into(), Document::String("p".repeat(9000)));
    }
    db.update("docs", &ada, grown).unwrap();
    // ...and a value is free again once its document is gone.
    db.delete("docs", &bob).unwrap();
    let bob = db.insert("docs", email("ADA@x")).unwrap();

    // Any number of documents may lack the field or hold null.
    for doc in [object(&[]), object(&[]), email("x")] {
        db.insert("docs", doc).unwrap();
    }
    for _ in 0..2 {
        db.insert("docs", object(&[("email", Document::Null)]))
            .unwrap();
    }

    db.reopen();
    assert!(db.state.catalog.indexes("docs")[0].unique);
    assert_eq!(duplicate(db.insert("docs", email("ada@x"))).1, ada);
    assert_eq!(duplicate(db.insert("docs", email("ADA@x"))).1, bob);
}

#[test]
fn unique_means_equal_values_not_equal_keys() {
    let mut db = Db::open();
    db.unique("docs", "k").unwrap();
    let k = |value: Document| object(&[("k", value)]);
    let long = |tail: &str| Document::String("x".repeat(1200) + tail);
    let big = 1i64 << 53;

    db.insert("docs", k(Document::Int(1))).unwrap();
    duplicate(db.insert("docs", k(float(1.0))));
    db.insert("docs", k(float(0.0))).unwrap();
    duplicate(db.insert("docs", k(float(-0.0))));
    // Same key, different values: both allowed.
    db.insert("docs", k(Document::Int(big))).unwrap();
    db.insert("docs", k(Document::Int(big + 1))).unwrap();
    db.insert("docs", k(long("a"))).unwrap();
    db.insert("docs", k(long("b"))).unwrap();
    duplicate(db.insert("docs", k(long("a"))));
    // Values no condition can match equal aren't checked.
    for _ in 0..2 {
        db.insert("docs", k(float(f64::NAN))).unwrap();
        db.insert("docs", k(Document::Array(vec![Document::Int(1)])))
            .unwrap();
    }
}

#[test]
fn ensure_unique_index_over_duplicates_creates_nothing() {
    let mut db = Db::open();
    let first = db.insert("users", user("Ada", 36)).unwrap();
    db.insert("users", user("Bob", 41)).unwrap();
    let second = db.insert("users", user("Ada", 20)).unwrap();

    assert_eq!(duplicate(db.unique("users", "name")), (second, first));
    assert!(db.indexes("users").is_empty());

    db.delete("users", &second).unwrap();
    assert!(db.unique("users", "name").unwrap());

    // The other kind of index on the same field is refused, not
    // swapped: dropping it first is the caller's call.
    db.index("users", "age").unwrap();
    for result in [db.unique("users", "age"), db.index("users", "name")] {
        let Err(Error::Io(err)) = result else {
            panic!("expected a refusal, got {result:?}");
        };
        assert_eq!(err.kind(), ErrorKind::InvalidInput);
    }
    assert_eq!(db.indexes("users"), ["name", "age"]);
    let indexes = db.state.catalog.indexes("users");
    assert!(indexes[0].unique && !indexes[1].unique);
}

#[test]
fn an_index_with_other_options_is_refused() {
    let mut db = Db::open();
    let both = IndexOptions {
        unique: true,
        sparse: true,
    };
    assert!(db.index_with("members", "nick", SPARSE).unwrap());
    assert!(!db.index_with("members", "nick", SPARSE).unwrap());
    assert!(db.index_with("members", "name", both).unwrap());
    for result in [
        db.index("members", "nick"),
        db.unique("members", "nick"),
        db.index_with("members", "nick", both),
        db.unique("members", "name"),
    ] {
        let Err(Error::Io(err)) = result else {
            panic!("expected a refusal, got {result:?}");
        };
        assert_eq!(err.kind(), ErrorKind::InvalidInput);
        assert!(err.to_string().contains("drop it first"));
    }
    let Err(Error::Io(err)) = db.index("members", "nick") else {
        unreachable!()
    };
    assert!(err
        .to_string()
        .contains("already has a sparse index on \"nick\", not a plain"));
    assert_eq!(unique_indexes(&db.state.catalog, "members"), ["name"]);
    assert_eq!(sparse_indexes(&db.state.catalog, "members"), ["nick", "name"]);
    let member = |name: &str| object(&[("name", text(name)), ("nick", Document::Null)]);
    db.insert("members", member("Ada")).unwrap();
    db.insert("members", member("Bob")).unwrap();
    assert!(matches!(
        db.insert("members", member("Ada")),
        Err(Error::DuplicateValue { .. })
    ));
}

#[test]
fn names_are_escaped_in_messages() {
    let mut db = Db::open();
    db.index("the \"new\"\n", "a").unwrap();
    let Err(Error::Io(err)) = db.unique("the \"new\"\n", "a") else {
        unreachable!()
    };
    assert!(err
        .to_string()
        .starts_with(r#""the \"new\"\n" already has a plain index on "a""#));
}

#[test]
fn a_sparse_index_holds_only_the_documents_with_a_value() {
    let mut db = Db::open();
    db.index_with("members", "nick", SPARSE).unwrap();
    db.index_with("members", ["nick", "team"], SPARSE).unwrap();
    db.index("members", "team").unwrap();
    let ops = (0..1000)
        .map(|i| {
            let nick = match i % 10 {
                0 => text(&format!("n{}", i % 30)),
                _ => Document::Null,
            };
            let team = match i % 25 {
                0 => text("red"),
                _ => Document::Null,
            };
            let member = object(&[("name", text(&format!("m{i}"))), ("nick", nick), ("team", team)]);
            WriteOp::Insert("members".into(), UuidV7Generator.generate(), member)
        })
        .collect();
    db.write(ops).unwrap();
    let entries = |db: &Db, field: &str| {
        let indexes = db.state.catalog.indexes("members");
        let index = indexes.iter().find(|index| index.name() == field).unwrap();
        let found = BTreeIndex::new(index.root).scan(&db.state.store);
        found.unwrap().len()
    };
    assert_eq!(entries(&db, "nick"), 100);
    // Null in both only if neither is set: 100 + 40 - 20 with both.
    assert_eq!(entries(&db, "(nick, team)"), 120);
    assert_eq!(entries(&db, "team"), 1000);
    assert_eq!(
        sparse_indexes(&db.state.catalog, "members"),
        ["nick", "(nick, team)"]
    );

    let by_nick = Filter::new().eq("nick", text("n10"));
    assert_eq!(
        db.explain("members", &by_nick),
        QueryPlan::Index {
            field: "nick".into()
        }
    );
    assert_eq!(db.count("members", &by_nick), 33);
    // Without a nick: not in the index, so a scan finds them.
    let without = Filter::new().eq("nick", Document::Null);
    assert_eq!(db.explain("members", &without), QueryPlan::Scan);
    assert_eq!(db.count("members", &without), 900);
    let first_nicks = Filter::new()
        .and(Condition::on("nick", Op::Ne, Document::Null))
        .sort_asc("nick")
        .limit(3);
    assert_eq!(
        db.explain("members", &first_nicks),
        QueryPlan::IndexOrder {
            field: "nick".into()
        }
    );
    let nicks = db.find("members", &first_nicks);
    assert!(nicks.iter().all(|(_, m)| text_at(m, "nick") == "n0"));
    db.assert_consistent();
}

#[test]
fn compound_indexes_are_checked_created_dropped_exported_and_imported() {
    let mut db = Db::open();
    let too_many = ["a", "b", "c", "d", "e", "f", "g", "h", "i"];
    for bad in [
        &[][..],
        &too_many[..],
        &["a", "tags[*]"],
        &["a", "a"],
        &["a", "_id"],
        &["a", ""],
    ] {
        assert!(db.index("docs", bad).is_err(), "{bad:?}");
    }
    assert!(db.index("docs", &too_many[..8]).unwrap());
    assert!(db.index("docs", ["a", "b"]).unwrap());
    assert!(!db.index("docs", ["a", "b"]).unwrap());
    // Another order is another index.
    assert!(db.index("docs", ["b", "a"]).unwrap());
    assert!(db.unique("docs", ["a", "c"]).unwrap());
    assert!(
        db.unique("docs", ["a", "b"]).is_err(),
        "exists, not unique"
    );
    db.insert(
        "docs",
        object(&[("a", 1.into()), ("b", 2.into()), ("c", 3.into())]),
    )
    .unwrap();
    assert_eq!(
        db.indexes("docs"),
        ["(a, b, c, d, e, f, g, h)", "(a, b)", "(b, a)", "(a, c)"]
    );
    assert_eq!(unique_indexes(&db.state.catalog, "docs"), ["(a, c)"]);
    assert!(sparse_indexes(&db.state.catalog, "docs").is_empty());

    let text = export_text(&db);
    assert!(text.contains(r#"["a","b"]"#), "{text}");
    assert!(
        text.contains(r#"{"fields":["a","c"],"unique":true}"#),
        "{text}"
    );
    let mut copy = Db::open();
    import_text(&mut copy, &text).unwrap();
    assert_eq!(copy.indexes("docs"), db.indexes("docs"));
    assert_eq!(unique_indexes(&copy.state.catalog, "docs"), ["(a, c)"]);
    copy.assert_consistent();

    assert!(db.drop_index("docs", ["b", "a"]));
    assert!(!db.drop_index("docs", ["b", "a"]));
    assert!(!db.drop_index("docs", "b"), "no index on b alone");
    assert_eq!(db.indexes("docs").len(), 3);
    db.assert_consistent();
}

#[test]
fn posts_are_found_by_any_tag_or_comment() {
    let post = |title: &str, tags: &[&str], comments: &[(&str, i64)]| {
        let tags = tags.iter().map(|t| text(t)).collect();
        let comments = comments
            .iter()
            .map(|(author, likes)| {
                object(&[("author", text(author)), ("likes", Document::Int(*likes))])
            })
            .collect();
        object(&[
            ("title", text(title)),
            ("tags", Document::Array(tags)),
            ("comments", Document::Array(comments)),
        ])
    };
    let mut db = Db::open();
    for doc in [
        post("a", &["rust", "db"], &[("ann", 3), ("bob", 12)]),
        post("b", &["rust", "rust", "web"], &[("ann", 40)]),
        post("c", &[], &[]),
        post("d", &["draft"], &[("cy", 1)]),
    ] {
        db.insert("posts", doc).unwrap();
    }
    let titles = |db: &Db, f: Filter| {
        let found = db.find("posts", &f.sort_asc("title"));
        let mut titles: Vec<String> = found.iter().map(|(_, p)| text_at(p, "title")).collect();
        titles.dedup();
        titles
    };
    let queries = || {
        [
            (Filter::new().eq("tags[*]", text("rust")), vec!["a", "b"]),
            (Filter::new().ne("tags[*]", text("rust")), vec!["c", "d"]),
            (
                Filter::new().gt("comments[*].likes", 10.into()),
                vec!["a", "b"],
            ),
            (
                Filter::new().eq("comments[*].author", text("ann")),
                vec!["a", "b"],
            ),
            (Filter::new().contains("tags[*]", text("RA")), vec!["d"]),
            (
                Filter::new()
                    .eq("tags[*]", text("rust"))
                    .lt("comments[*].likes", 5.into()),
                vec!["a"],
            ),
        ]
    };
    for (f, expected) in queries() {
        assert_eq!(titles(&db, f), expected);
    }
    db.index("posts", "tags[*]").unwrap();
    db.index("posts", "comments[*].likes").unwrap();
    for (f, expected) in queries() {
        assert_eq!(titles(&db, f), expected);
    }
    let rust = || Filter::new().eq("tags[*]", text("rust"));
    assert_eq!(
        db.explain("posts", &rust()),
        QueryPlan::Index {
            field: "tags[*]".into()
        }
    );
    // "b" has "rust" twice and matches once, in every kind of read.
    assert_eq!(db.find("posts", &rust()).len(), 2);
    assert_eq!(db.count("posts", &rust()), 2);
    let mut cursor = Cursor::open(&db.state.catalog, &db.state.store, "posts", rust()).unwrap();
    let mut n = 0;
    while let Some(found) = cursor.next(&db.state.catalog, &db.state.store) {
        found.unwrap();
        n += 1;
    }
    assert_eq!(n, 2);

    // Writes: a tag removed stops matching, one added starts.
    let is_a = Filter::new().eq("title", text("a"));
    let changed = change_many(&mut db, "posts", &is_a, |p| {
        put(p, "tags", Document::Array(vec![text("db"), text("new")]))
    })
    .unwrap();
    assert_eq!(changed, 1);
    assert_eq!(titles(&db, rust()), vec!["b"]);
    assert_eq!(
        titles(&db, Filter::new().eq("tags[*]", text("new"))),
        vec!["a"]
    );
    let web = Filter::new().eq("tags[*]", text("web"));
    let gone = db
        .transact(|catalog, store| delete_many(catalog, store, "posts", &web))
        .unwrap();
    assert_eq!(gone, 1);
    assert_eq!(titles(&db, rust()), Vec::<String>::new());
    db.assert_consistent();

    // Export and import keep the multikey indexes as they are.
    let mut copy = Db::open();
    import_text(&mut copy, &export_text(&db)).unwrap();
    assert_eq!(copy.indexes("posts"), ["tags[*]", "comments[*].likes"]);
    let new = Filter::new().eq("tags[*]", text("new"));
    assert!(copy.find("posts", &new) == db.find("posts", &new));
    assert_eq!(
        copy.explain("posts", &new),
        QueryPlan::Index {
            field: "tags[*]".into()
        }
    );
    copy.assert_consistent();
}

#[test]
fn null_and_missing_fields_are_found_alike_through_the_index() {
    let member = |name: &str, nick: Option<&str>, team: Option<&str>| {
        let mut doc = object(&[("name", text(name)), ("nick", Document::from(nick))]);
        if let Some(team) = team {
            put(&mut doc, "team", text(team));
        }
        doc
    };
    let mut db = Db::open();
    // Written before there was a `nick`: no such key at all.
    db.insert("members", user("Old", 99)).unwrap();
    db.insert("members", member("Ada", None, None)).unwrap();
    let bob = db
        .insert("members", member("Bob", Some("B"), Some("red")))
        .unwrap();
    db.insert("members", member("Cy", Some("C"), None)).unwrap();
    assert!(db.index("members", "nick").unwrap());
    assert!(db.index("members", "team").unwrap());

    let names = |db: &Db, field: &str, op: Op| {
        let f = Filter::new().and(Condition::on(field, op, Document::Null));
        let found = db.find("members", &f);
        let mut names: Vec<String> = found.iter().map(|(_, m)| text_at(m, "name")).collect();
        names.sort();
        names
    };
    assert_eq!(
        db.explain("members", &Filter::new().eq("nick", Document::Null)),
        QueryPlan::Index {
            field: "nick".to_string()
        }
    );
    assert_eq!(names(&db, "nick", Op::Eq), ["Ada", "Old"]);
    assert_eq!(names(&db, "nick", Op::Ne), ["Bob", "Cy"]);
    // `team` is never stored as null, only left out.
    assert_eq!(names(&db, "team", Op::Eq), ["Ada", "Cy", "Old"]);
    assert_eq!(names(&db, "team", Op::Ne), ["Bob"]);

    // Setting and clearing a field moves its index entry.
    let red = Filter::new().eq("team", text("red"));
    assert_eq!(db.find("members", &red)[0].0, bob);
    db.update("members", &bob, member("Bob", None, None)).unwrap();
    assert_eq!(names(&db, "nick", Op::Eq), ["Ada", "Bob", "Old"]);
    assert_eq!(names(&db, "team", Op::Eq), ["Ada", "Bob", "Cy", "Old"]);
}

#[test]
fn documents_larger_than_a_page_work_end_to_end() {
    let mut db = Db::open();
    let article = |title: &str, sentence: &str, times| {
        object(&[
            ("title", text(title)),
            ("body", Document::String(sentence.repeat(times))),
        ])
    };
    db.insert("articles", article("short", "A quiet morning. ", 3))
        .unwrap();
    let id = db
        .insert("articles", article("long", "The storm kept on. ", 5_000))
        .unwrap();
    let last = article("long", "The storm broke at last. ", 8_000);
    assert!(db.update("articles", &id, last.clone()).unwrap());
    db.reopen();
    let expected = with_id(last, id);
    assert!(db.get("articles", &id) == Some(expected.clone()));
    let storm = Filter::new().contains("body", text("STORM BROKE"));
    assert!(db.find("articles", &storm) == vec![(id, expected)]);
}

#[test]
fn small_documents_are_packed_into_few_pages() {
    let mut db = Db::open();
    let ops = (0..1000i64)
        .map(|i| {
            let doc = object(&[("lat", Document::Int(i)), ("lon", Document::Int(-i))]);
            WriteOp::Insert("pings".to_string(), UuidV7Generator.generate(), doc)
        })
        .collect();
    db.write(ops).unwrap();
    let pages = db.state.store.page_count();
    assert!(pages < 30, "1000 small documents took {pages} pages");
    assert_eq!(db.find("pings", &Filter::default()).len(), 1000);
}

#[test]
fn a_failed_batch_leaves_no_trace() {
    let insert = |name: &str, id: u8, value: i64| {
        WriteOp::Insert(name.to_string(), DocId([id; 16]), Document::Int(value))
    };
    let mut db = Db::open();
    db.write(vec![insert("users", 1, 1)]).unwrap();
    let pages = db.state.store.page_count();

    let large = Document::Binary(vec![0u8; 20_000]); // needs overflow pages
    let result = db.write(vec![
        insert("posts", 2, 2),
        WriteOp::Insert("posts".to_string(), DocId([3; 16]), large),
        insert("users", 1, 5),
    ]);
    assert!(matches!(result, Err(Error::DuplicateId { .. })));
    assert!(db.get("posts", &DocId([3; 16])).is_none());
    assert_eq!(db.state.store.page_count(), pages);
    assert!(db.get("posts", &DocId([2; 16])).is_none());
    assert!(db.state.catalog.get("posts").is_none());

    // It keeps working, and the next batch that does create "posts" gets a
    // consistent collection, also after a reopen.
    db.write(vec![insert("posts", 4, 4)]).unwrap();
    db.reopen();
    assert!(db.get("users", &DocId([1; 16])) == Some(Document::Int(1)));
    assert!(db.get("posts", &DocId([4; 16])) == Some(Document::Int(4)));
    assert_eq!(db.find("posts", &Filter::default()).len(), 1);
}

#[test]
fn a_failed_batch_rolls_back_its_index_entries() {
    let mut db = Db::open();
    db.index("users", "age").unwrap();
    let ada = db.insert("users", user("Ada", 36)).unwrap();

    let mut batch = Batch::new();
    batch.insert("users", &UuidV7Generator, user("Grace", 45));
    batch.delete("users", &DocId([0; 16])); // doesn't exist: fails the batch
    assert!(db.write(batch.into_ops()).is_err());

    let found = db.find("users", &age_filter(Op::Gte, 0));
    assert_eq!(
        found.into_iter().map(|(id, _)| id).collect::<Vec<_>>(),
        [ada]
    );
    db.assert_consistent();
}

// The check.

fn sample() -> Db {
    let mut db = Db::open();
    for name in ["people", "notes"] {
        db.index(name, "age").unwrap();
        db.unique(name, "email").unwrap();
        for i in 0..120usize {
            let pad = if i == 3 { 50_000 } else { i * 53 % 2000 };
            db.insert(
                name,
                object(&[
                    ("age", Document::Int(i as i64 % 30)),
                    ("email", Document::String(format!("{i}@x"))),
                    ("pad", Document::String("p".repeat(pad))),
                ]),
            )
            .unwrap();
        }
        let filter = Filter::new().lt("age", 5.into());
        db.transact(|catalog, store| delete_many(catalog, store, name, &filter))
            .unwrap();
    }
    db
}

fn assert_found(db: &Db, needle: &str) {
    let problems = db.check().problems;
    assert!(
        problems.iter().any(|p| p.contains(needle)),
        "{needle:?} not in {problems:#?}"
    );
}

#[test]
fn a_consistent_file_has_no_problems() {
    let mut db = sample();
    let report = db.check();
    assert_eq!(report.problems, Vec::<String>::new());
    assert_eq!((report.collections, report.documents), (2, 200));

    db.reopen();
    assert!(db.check().is_ok());
    assert!(db
        .transact(|catalog, store| drop_collection(catalog, store, "notes"))
        .unwrap());
    assert!(db.check().is_ok());
}

/// Documents of all sizes, two indexes, and deletes that free pages.
fn fill(db: &mut Db, name: &str) {
    db.index(name, "n").unwrap();
    db.unique(name, "u").unwrap();
    let doc = |i: usize| {
        let pad = if i == 7 { 100_000 } else { i * 37 % 3000 };
        object(&[
            ("n", Document::Int((i % 7) as i64)),
            ("u", Document::Int(i as i64)),
            ("pad", Document::String("p".repeat(pad))),
        ])
    };
    let id = |i: usize| DocId((i as u128).to_be_bytes());
    let ops = (0..300).map(|i| WriteOp::Insert(name.into(), id(i), doc(i)));
    db.write(ops.collect()).unwrap();
    // The last 20 too: that empties the current data page, which stays
    // (inserts go there) though no document points to it.
    let deletes = (0..300).filter(|i| i % 5 == 0 || (40..80).contains(i) || *i >= 280);
    db.write(deletes.map(|i| WriteOp::Delete(name.into(), id(i))).collect())
        .unwrap();
}

#[test]
fn dropping_a_collection_frees_every_page_it_had() {
    let mut db = Db::open();
    let contents = |db: &Db, name: &str| db.find(name, &Filter::new());
    // Interleaved in the file: the kept ones' pages sit among the dropped
    // one's.
    fill(&mut db, "keep1");
    fill(&mut db, "gone");
    fill(&mut db, "keep2");
    let kept = (contents(&db, "keep1"), contents(&db, "keep2"));
    let len = db.state.store.page_count();

    let drop_gone = |db: &mut Db| {
        db.transact(|catalog, store| drop_collection(catalog, store, "gone"))
            .unwrap()
    };
    assert!(drop_gone(&mut db));
    assert!(!drop_gone(&mut db));
    assert_eq!(db.names(), ["keep1", "keep2"]);
    assert!(contents(&db, "gone").is_empty());

    // Everything it had comes back: the same collection again takes no new
    // page.
    fill(&mut db, "again");
    assert_eq!(db.state.store.page_count(), len);
    db.assert_consistent();
    assert_eq!(contents(&db, "again").len(), 192);
    assert!((contents(&db, "keep1"), contents(&db, "keep2")) == kept);

    db.reopen();
    assert_eq!(db.names(), ["again", "keep1", "keep2"]);
    assert!((contents(&db, "keep1"), contents(&db, "keep2")) == kept);
    assert_eq!(db.indexes("again"), ["n", "u"]);
    assert_eq!(unique_indexes(&db.state.catalog, "again"), ["u"]);
    let n_is_3 = Filter::new().eq("n", 3.into());
    assert_eq!(db.find("again", &n_is_3).len(), 28);
    db.assert_consistent();
    // A dropped collection starts over.
    assert_eq!(db.count("gone", &Filter::new()), 0);
    db.insert("gone", Document::Int(1)).unwrap();
    assert_eq!(db.count("gone", &Filter::new()), 1);
    assert!(db.indexes("gone").is_empty());
}

#[test]
fn what_is_said_of_pages_names_them_and_their_owners() {
    let mut check = Check::new(2);
    check.claim(1, "the catalog");
    check.claim_all(&vec![1, 7, 0], "\"users\"'s documents");
    assert_eq!(
        check.problems,
        vec![
            "page 1 belongs to both the catalog and \"users\"'s documents",
            "\"users\"'s documents uses page 7, past the file's end",
        ]
    );
    assert_eq!(check.owners[0].as_deref(), Some("\"users\"'s documents"));
    assert_eq!(check.owners[1].as_deref(), Some("the catalog"));
}

#[test]
fn a_page_nothing_owns_is_a_leak() {
    let mut db = sample();
    let leaked = db
        .transact(|_, store| store.allocate_page().map_err(Error::Io))
        .unwrap();
    assert_found(&db, &format!("page {leaked} belongs to nothing"));
}

#[test]
fn an_index_missing_an_entry_or_with_a_wrong_one_is_found() {
    let mut db = sample();
    let (id, doc) = db
        .find("people", &Filter::new().eq("age", 7.into()))
        .remove(0);
    db.transact(|catalog, store| {
        let index = &catalog.indexes("people")[0];
        let mut tree = BTreeIndex::new(index.root);
        for key in index_keys(&doc, index, id) {
            tree.remove(store, &key).map_err(Error::Io)?;
        }
        // And an entry claiming the document holds 99.
        let loc = BTreeIndex::new(catalog.get("people").unwrap().index_root)
            .lookup(store, &key::primary(id))
            .map_err(Error::Io)?
            .unwrap();
        let wrong = key::secondary(&Document::Int(99), id).unwrap();
        tree.insert(store, &wrong, loc).map_err(Error::Io)
    })
    .unwrap();
    let id = id.to_string();
    assert_found(&db, &format!("index on \"age\" lacks document {id}"));
    assert_found(&db, &format!("entry for document {id} that doesn't match"));
}

#[test]
fn a_page_with_two_owners_is_found() {
    let mut db = sample();
    // Make `notes` insert into a page full of `people`'s documents.
    // (Collections are checked in name order: `notes` claims it first.)
    let id = db.find("people", &Filter::new().eq("age", 20.into()))[0].0;
    let page = db
        .transact(|catalog, store| {
            let root = catalog.get("people").unwrap().index_root;
            let loc = BTreeIndex::new(root)
                .lookup(store, &key::primary(id))
                .map_err(Error::Io)?
                .unwrap();
            catalog.set_current_data_page(store, "notes", loc.page)?;
            Ok(loc.page)
        })
        .unwrap();
    assert_found(
        &db,
        &format!("page {page} belongs to both \"notes\"'s documents and \"people\"'s documents"),
    );
}

/// Rewrites a document in place, past the unique index's check.
fn rewrite(db: &mut Db, id: DocId, copy: &Document) {
    db.transact(|catalog, store| {
        let meta = *catalog.get("people").unwrap();
        let loc = BTreeIndex::new(meta.index_root)
            .lookup(store, &key::primary(id))
            .map_err(Error::Io)?
            .unwrap();
        let mut current = meta.current_data_page;
        let new_loc = update_record(store, &mut current, loc, id, copy).map_err(Error::Io)?;
        assert_eq!(new_loc, loc, "it shrank, so it stays in place");
        Ok(())
    })
    .unwrap();
}

#[test]
fn a_duplicate_in_a_unique_index_is_found() {
    let mut db = sample();
    let id = db.find("people", &Filter::new().eq("email", text("7@x")))[0].0;
    let copy = object(&[
        ("_id", Document::Id(id)),
        ("age", Document::Int(8)),
        ("email", text("8@x")),
    ]);
    rewrite(&mut db, id, &copy);
    assert_found(&db, "is unique, but documents");
    assert_found(&db, &format!("lacks document {}", id.to_string()));
}

/// A damaged unique index doesn't hide two documents with equal values: the
/// documents are compared, not its entries.
#[test]
fn equal_documents_are_found_where_the_index_lacks_both() {
    let mut db = sample();
    let id = db.find("people", &Filter::new().eq("email", text("7@x")))[0].0;
    let copy = object(&[("_id", Document::Id(id)), ("email", text("8@x"))]);
    rewrite(&mut db, id, &copy);
    let (other, doc) = db
        .find("people", &Filter::new().eq("email", text("8@x")))
        .into_iter()
        .find(|(other, _)| *other != id)
        .unwrap();
    db.transact(|catalog, store| {
        let index = &catalog.indexes("people")[1];
        let mut tree = BTreeIndex::new(index.root);
        for key in index_keys(&doc, index, other) {
            tree.remove(store, &key).map_err(Error::Io)?;
        }
        Ok(())
    })
    .unwrap();
    assert_found(&db, "is unique, but documents");
    let shared = db.check().problems;
    let shared = shared.iter().filter(|p| p.contains("share a value"));
    assert_eq!(shared.count(), 1, "each pair once");
}

// Compaction.

/// A database with room to compact: three collections (one emptied), indexes of
/// every kind (unique, nested, on a field few documents have), large documents
/// in overflow pages, documents deleted, grown and shrunk, and a dropped
/// collection.
fn churned() -> Db {
    let mut db = Db::open();
    for name in ["people", "notes", "gone", "emptied"] {
        db.index(name, "age").unwrap();
        db.unique(name, "email").unwrap();
        db.index(name, "address.city").unwrap();
        let mut ops = Vec::new();
        for i in 0..400i64 {
            let pad = match i % 97 {
                0 => 30_000,
                n => (n * 41 % 1500) as usize,
            };
            let mut fields = vec![
                ("age", Document::Int(i % 60)),
                ("email", Document::String(format!("{i}@{name}"))),
                ("pad", Document::String("p".repeat(pad))),
            ];
            if i % 7 == 0 {
                let city = object(&[("city", Document::String(format!("c{}", i % 5)))]);
                fields.push(("address", city));
            }
            if i % 11 == 0 {
                fields.push(("email", Document::Null));
            }
            let id = UuidV7Generator.generate();
            ops.push(WriteOp::Insert(name.into(), id, object(&fields)));
        }
        db.write(ops).unwrap();
        let young = Filter::new().lt("age", 25.into());
        db.transact(|catalog, store| delete_many(catalog, store, name, &young))
            .unwrap();
        for (filter, pad) in [
            (Filter::new().gte("age", 50.into()), "q".repeat(2500)),
            (Filter::new().eq("age", 30.into()), String::new()),
        ] {
            let ops = db
                .find(name, &filter)
                .into_iter()
                .map(|(id, mut doc)| {
                    put(&mut doc, "pad", Document::String(pad.clone()));
                    WriteOp::Update(name.into(), id, doc)
                })
                .collect();
            db.write(ops).unwrap();
        }
    }
    let all = Filter::new();
    db.transact(|catalog, store| delete_many(catalog, store, "emptied", &all))
        .unwrap();
    assert!(db
        .transact(|catalog, store| drop_collection(catalog, store, "gone"))
        .unwrap());
    db
}

/// Everything a caller can see: each collection's documents with their ids, its
/// indexes, which of them are unique, and what an indexed query finds.
fn contents(db: &Db) -> Vec<String> {
    let mut contents = Vec::new();
    for name in db.names() {
        let mut all = db.find(&name, &Filter::new());
        all.sort_by_key(|(id, _)| *id);
        contents.push(format!(
            "{name}: {:?} {:?} {all:?}",
            db.indexes(&name),
            unique_indexes(&db.state.catalog, &name)
        ));
        for filter in [
            Filter::new().gte("age", 40.into()).sort_desc("age").limit(7),
            Filter::new().eq("address.city", text("c3")),
            Filter::new().eq("email", text("331@people")),
        ] {
            contents.push(format!("{:?}", db.find(&name, &filter)));
        }
    }
    contents
}

/// How many pages wait to be used again.
fn free_pages(db: &Db) -> usize {
    (1..db.state.store.page_count())
        .filter(|page| db.state.store.try_read_page(*page).unwrap().is_none())
        .count()
}

#[test]
fn compacting_keeps_everything_and_shrinks_the_file() {
    let mut db = churned();
    let before = contents(&db);
    let pages_before = db.state.store.page_count();

    let compacted = db.compact().unwrap();
    assert_eq!(compacted.pages_before, pages_before);
    assert!(
        compacted.pages_after * 10 < pages_before * 7,
        "{compacted:?}: expected at least 30% smaller"
    );
    assert_eq!(
        (db.state.store.page_count(), free_pages(&db)),
        (compacted.pages_after, 0)
    );
    assert_eq!(contents(&db), before);
    db.assert_consistent();

    // Writes go on as usual, the current data pages included.
    db.insert("people", object(&[("age", Document::Int(99))]))
        .unwrap();
    assert!(db
        .insert("people", object(&[("email", "40@people".into())]))
        .is_err());
    let oldest = Filter::new().eq("age", 99.into());
    db.transact(|catalog, store| delete_many(catalog, store, "people", &oldest))
        .unwrap();
    db.insert("emptied", object(&[("age", Document::Int(1))]))
        .unwrap();
    let all = Filter::new();
    db.transact(|catalog, store| delete_many(catalog, store, "emptied", &all))
        .unwrap();
    db.assert_consistent();

    db.reopen();
    assert_eq!(contents(&db), before);
    db.assert_consistent();
}

/// As small as inserting the same documents into a new file in id order (the
/// best case of ordinary writes), or smaller.
#[test]
fn a_compacted_file_is_no_larger_than_the_same_documents_inserted_fresh() {
    let mut db = churned();
    let compacted = db.compact().unwrap();

    let mut fresh = Db::open();
    for name in db.names() {
        let unique = unique_indexes(&db.state.catalog, &name);
        for field in db.indexes(&name) {
            match unique.contains(&field) {
                true => fresh.unique(&name, field.as_str()).unwrap(),
                false => fresh.index(&name, field.as_str()).unwrap(),
            };
        }
        let mut all = db.find(&name, &Filter::new());
        all.sort_by_key(|(id, _)| *id);
        let ops = all
            .into_iter()
            .map(|(id, doc)| WriteOp::Insert(name.clone(), id, doc))
            .collect();
        fresh.write(ops).unwrap();
    }
    let fresh_pages = fresh.state.store.page_count();
    assert!(
        compacted.pages_after <= fresh_pages,
        "{compacted:?}, fresh: {fresh_pages}"
    );
}

/// Compacting a compact file changes nothing.
#[test]
fn a_second_compaction_changes_nothing() {
    let mut db = churned();
    let first = db.compact().unwrap();
    let before = contents(&db);
    let again = db.compact().unwrap();
    assert_eq!(
        (again.pages_before, again.pages_after),
        (first.pages_after, first.pages_after)
    );
    assert_eq!(contents(&db), before);
}

#[test]
fn a_compact_file_is_left_alone() {
    let mut db = sample();
    let first = db.compact().unwrap();
    let again = db.compact().unwrap();
    assert_eq!(again.pages_before, first.pages_after);
    assert_eq!(again.pages_after, again.pages_before);
}

/// The number of entries on each leaf of an index, in key order.
fn leaf_lengths(db: &Db, root: PageId) -> Vec<usize> {
    BTreeIndex::new(root)
        .pages(&db.state.store)
        .unwrap()
        .into_iter()
        .map(|page| SlottedPage::from_bytes(db.state.store.read_page(page).unwrap()).unwrap())
        .filter(|page| page.page_type() == PageType::IndexLeaf)
        .map(|page| page.iter_cells().len())
        .collect()
}

/// A secondary index whose values arrived in random order is rebuilt from
/// sorted keys: every leaf full but the last.
#[test]
fn a_rebuilt_index_has_full_leaves() {
    let mut db = Db::open();
    db.index("docs", "v").unwrap();
    let mut rng = XorShift(0x9E37_79B9_7F4A_7C15);
    let ops = (0..3000)
        .map(|_| {
            let v = Document::Int(1_000_000 + rng.below(1_000_000) as i64);
            let id = UuidV7Generator.generate();
            WriteOp::Insert("docs".into(), id, object(&[("v", v)]))
        })
        .collect();
    db.write(ops).unwrap();
    db.compact().unwrap();

    let root = db.state.catalog.indexes("docs")[0].root;
    let mut leaves: Vec<usize> = leaf_lengths(&db, root);
    leaves.sort_unstable();
    let full = *leaves.last().unwrap();
    assert!(leaves.len() > 5, "{leaves:?}");
    assert!(leaves[1..].iter().all(|&n| n == full), "{leaves:?}");
    db.assert_consistent();
}

/// An index read in order is read no further than the limit asks: a leaf far
/// behind it may be damaged.
#[test]
fn an_ordered_read_leaves_the_leaves_behind_its_limit_alone() {
    let mut db = Db::open();
    db.index("docs", "v").unwrap();
    let ops = (0..3000)
        .map(|v| {
            let id = UuidV7Generator.generate();
            WriteOp::Insert("docs".into(), id, object(&[("v", Document::Int(v))]))
        })
        .collect();
    db.write(ops).unwrap();
    let root = db.state.catalog.indexes("docs")[0].root;
    let pages = BTreeIndex::new(root).pages(&db.state.store).unwrap();
    let leaves: Vec<PageId> = pages
        .into_iter()
        .filter(|page| {
            let bytes = db.state.store.read_page(*page).unwrap();
            SlottedPage::from_bytes(bytes).unwrap().page_type() == PageType::IndexLeaf
        })
        .collect();
    let middle = leaves[leaves.len() / 2];
    db.state.store.write_page(middle, &[0; USABLE_PAGE_SIZE]).unwrap();
    let values = |filter: &Filter| -> Result<Vec<i64>, Error> {
        let found = find_in(&db.state.catalog, &db.state.store, "docs", filter)?;
        Ok(found
            .iter()
            .map(|(_, doc)| match value_or_null(doc, "v") {
                Document::Int(v) => v,
                _ => panic!("not an integer"),
            })
            .collect())
    };
    let asc = |limit| Filter::new().sort_asc("v").limit(limit);
    let desc = |limit| Filter::new().sort_desc("v").limit(limit);
    assert_eq!(values(&asc(3)).unwrap(), [0, 1, 2]);
    assert_eq!(values(&desc(3)).unwrap(), [2999, 2998, 2997]);
    assert!(values(&asc(2900)).is_err());
    assert!(values(&desc(2900)).is_err());
}

/// Ids ascend, so the primary index grows at its end: its leaves are full
/// without any rebuilding.
#[test]
fn documents_in_id_order_leave_full_leaves() {
    let mut db = Db::open();
    for i in 0..2000u32 {
        let mut id = [0u8; 16];
        id[..4].copy_from_slice(&i.to_be_bytes());
        db.write(vec![WriteOp::Insert("docs".into(), DocId(id), Document::Null)])
            .unwrap();
    }
    let root = db.state.catalog.get("docs").unwrap().index_root;
    let leaves = leaf_lengths(&db, root);
    assert!(leaves.len() > 5, "{leaves:?}");
    let full = leaves[0];
    assert!(leaves[..leaves.len() - 1].iter().all(|&n| n == full), "{leaves:?}");
    assert!(*leaves.last().unwrap() <= full, "{leaves:?}");
}

/// A rebuilt collection's documents fill their pages one after the other: where
/// the next one is on another page, this one had no room for it.
#[test]
fn a_rebuilt_collection_has_full_data_pages() {
    let db = {
        let mut db = churned();
        db.compact().unwrap();
        db
    };
    for name in ["people", "notes"] {
        let meta = db.state.catalog.get(name).unwrap();
        let entries = BTreeIndex::new(meta.index_root)
            .scan(&db.state.store)
            .unwrap();
        assert_eq!(entries.last().unwrap().1.page, meta.current_data_page);
        let mut left = 0;
        for pair in entries.windows(2) {
            let (loc, next) = (pair[0].1, pair[1].1);
            if loc.page != next.page {
                let page = read_data_page(&db.state.store, loc.page).unwrap();
                let after = read_data_page(&db.state.store, next.page).unwrap();
                let cell = after.get_cell(next.slot).unwrap();
                assert!(!page.has_room_for(cell.len()));
                left += 1;
            }
        }
        assert!(left > 2);
    }
}

/// What a reopened database holds is what it held, sound as it was.
#[test]
fn a_reopened_database_is_as_it_was() {
    let mut db = churned();
    let before = contents(&db);
    db.reopen();
    assert_eq!(contents(&db), before);
    db.assert_consistent();
    db.compact().unwrap();
    db.reopen();
    assert_eq!(contents(&db), before);
    db.assert_consistent();
}

#[test]
fn an_empty_database_compacts_to_its_header_and_catalog() {
    let mut db = Db::open();
    db.insert("docs", Document::Int(1)).unwrap();
    assert!(db
        .transact(|catalog, store| drop_collection(catalog, store, "docs"))
        .unwrap());
    assert_eq!(db.compact().unwrap().pages_after, 2);
    assert!(db.check().is_ok());
}

#[test]
fn a_duplicate_in_a_unique_index_stops_the_compaction() {
    let mut db = churned();
    let id = db.find("people", &Filter::new().eq("email", text("331@people")))[0].0;
    let copy = object(&[
        ("_id", Document::Id(id)),
        ("age", Document::Int(41)),
        ("email", text("332@people")),
    ]);
    rewrite(&mut db, id, &copy);
    let before = contents(&db);
    let pages = db.state.store.page_count();
    match db.compact() {
        Err(Error::DuplicateValue { field, .. }) => assert_eq!(field, "email"),
        other => panic!("expected DuplicateValue, got {other:?}"),
    }
    assert_eq!(contents(&db), before);
    assert_eq!(db.state.store.page_count(), pages);
}

#[test]
fn the_next_insert_uses_the_room_on_the_last_page() {
    let mut db = Db::open();
    // About 8 to a page: 2 pages, the second mostly empty.
    let ids: Vec<DocId> = (0..20)
        .map(|_| {
            db.insert("docs", Document::String("d".repeat(1000)))
                .unwrap()
        })
        .collect();
    for id in &ids[10..] {
        db.delete("docs", id).unwrap();
    }
    let compacted = db.compact().unwrap();
    assert!(compacted.pages_after < compacted.pages_before);
    db.insert("docs", text("small")).unwrap();
    assert_eq!(db.state.store.page_count(), compacted.pages_after);
    assert!(db.check().is_ok());
}

#[test]
fn ids_stay_what_they_were() {
    let mut db = Db::open();
    let ids: Vec<DocId> = (0..50)
        .map(|i| db.insert("docs", Document::Int(i)).unwrap())
        .collect();
    for id in &ids[..25] {
        db.delete("docs", id).unwrap();
    }
    db.compact().unwrap();
    for (i, id) in ids.iter().enumerate().skip(25) {
        assert!(db.get("docs", id) == Some(Document::Int(i as i64)));
    }
}

// Export and import.

fn to_value(json: &Json) -> serde_json::Value {
    match json {
        Json::Null => serde_json::Value::Null,
        Json::Bool(b) => serde_json::Value::from(*b),
        Json::Int(n) => serde_json::Value::from(*n),
        Json::UInt(n) => serde_json::Value::from(*n),
        Json::Float(bits) => serde_json::Value::from(f64::from_bits(*bits)),
        Json::String(s) => serde_json::Value::from(s.clone()),
        Json::Array(list) => serde_json::Value::Array(list.iter().map(to_value).collect()),
        Json::Object(entries) => {
            let mut map = serde_json::Map::new();
            for (name, value) in entries {
                map.insert(name.clone(), to_value(value));
            }
            serde_json::Value::Object(map)
        }
    }
}

fn export_text(db: &Db) -> String {
    let (lines, summary) = export_lines(&db.state.catalog, &db.state.store).unwrap();
    assert_eq!(lines.len(), 1 + summary.collections + summary.documents);
    lines
        .iter()
        .map(|line| serde_json::to_string(&to_value(line)).unwrap() + "\n")
        .collect()
}

fn build_all(db: &mut Db, header: trunkdb::export::CollectionHeader) -> Result<(), Error> {
    for index in header.indexes {
        db.index_with(&header.name, index.fields, index.options)?;
    }
    Ok(())
}

fn import_text(db: &mut Db, text: &str) -> Result<Summary, Error> {
    let mut import = Import::new();
    let mut number = 0;
    for line in text.lines() {
        number += 1;
        let new_id = UuidV7Generator.generate();
        match import.text_line(number, line, new_id)? {
            ImportStep::Read => {}
            ImportStep::Write(ops) => db.write(ops)?,
            ImportStep::Next { write, build, name } => {
                db.write(write)?;
                if let Some(header) = build {
                    build_all(db, header)?;
                }
                db.transact(|catalog, store| {
                    trunkdb::collection::apply::get_or_create_meta(catalog, store, &name)
                })?;
            }
        }
    }
    let (ops, header, summary) = import.finish()?;
    db.write(ops)?;
    if let Some(header) = header {
        build_all(db, header)?;
    }
    Ok(summary)
}

/// The generator's next state.
fn next(rng: &mut XorShift) -> u64 {
    rng.below(1);
    rng.0
}

/// A random value of any kind, nested up to `depth`.
fn random_any(rng: &mut XorShift, depth: usize) -> Document {
    let kinds = if depth == 0 { 8 } else { 10 };
    match rng.below(kinds) {
        0 => Document::Null,
        1 => Document::Bool(rng.below(2) == 1),
        2 => Document::Int(next(rng) as i64),
        3 => float([f64::NAN, f64::INFINITY, -0.0, 0.1, 1e300, -2.5][rng.below(6)]),
        4 => text(["", "ß", "a\"b\\c\n", "\0x", "$id"][rng.below(5)]),
        5 => Document::Binary((0..rng.below(20)).map(|i| (i * 37) as u8).collect()),
        6 => Document::Id(DocId(
            next(rng).to_le_bytes().repeat(2).try_into().unwrap(),
        )),
        7 => float(next(rng) as f64 / 3.0),
        8 => Document::Array(
            (0..rng.below(4))
                .map(|_| random_any(rng, depth - 1))
                .collect(),
        ),
        _ => {
            // Tag-looking keys on purpose.
            let keys = [
                "a",
                "$id",
                "$object",
                "$value",
                "$binary",
                "_id",
                "$collection",
            ];
            let n = rng.below(3);
            let fields: Vec<(&str, Document)> = (0..n)
                .map(|_| {
                    (
                        keys[rng.below(keys.len())],
                        random_any(rng, depth - 1),
                    )
                })
                .collect();
            object(&fields)
        }
    }
}

/// Same collections, indexes, ids and documents (by their encodings, since NaN
/// is equal to nothing).
fn assert_same_contents(got: &Db, want: &Db) {
    got.assert_consistent();
    want.assert_consistent();
    assert_eq!(got.names(), want.names());
    for name in want.names() {
        assert_eq!(got.indexes(&name), want.indexes(&name));
        assert_eq!(
            unique_indexes(&got.state.catalog, &name),
            unique_indexes(&want.state.catalog, &name)
        );
        let encodings = |db: &Db| -> Vec<(DocId, Vec<u8>)> {
            db.find(&name, &Filter::new())
                .into_iter()
                .map(|(id, doc)| (id, encode_document(&doc)))
                .collect()
        };
        assert!(encodings(got) == encodings(want), "{name}");
    }
}

#[test]
fn export_then_import_reproduces_every_document_id_and_index() {
    let mut source = Db::open();
    let mut rng = XorShift(0x5eed);
    source.index("users", "age").unwrap();
    let mut batch = Vec::new();
    for i in 0..2500i64 {
        // Top-level documents of every kind, not just objects.
        let doc = if i % 10 == 0 {
            random_any(&mut rng, 3)
        } else {
            let mut fields = vec![
                ("age", Document::Int(i % 90)),
                ("x", random_any(&mut rng, 3)),
            ];
            if i % 7 == 0 {
                fields = vec![("$collection", text("not a header"))];
            }
            object(&fields)
        };
        batch.push(WriteOp::Insert(
            "users".into(),
            DocId((i as u128).to_be_bytes()),
            doc,
        ));
    }
    source.write(batch).unwrap();
    // Large documents, stored in overflow pages.
    source
        .insert("big", object(&[("text", Document::String("x".repeat(100_000)))]))
        .unwrap();
    source.unique("big", "text").unwrap();
    // A collection that exists but is empty, and one with only indexes, one of
    // them on a nested path.
    source
        .transact(|catalog, store| {
            trunkdb::collection::apply::get_or_create_meta(catalog, store, "empty")
        })
        .unwrap();
    source.index("indexed", "k.a").unwrap();
    source.unique("indexed", "u").unwrap();

    let text = export_text(&source);
    let mut target = Db::open();
    let summary = import_text(&mut target, &text).unwrap();
    assert_eq!(
        summary,
        Summary {
            collections: 4,
            documents: 2501
        }
    );
    assert_same_contents(&target, &source);
    // Exporting the copy gives the same text again.
    assert!(export_text(&target) == text);

    // The rebuilt index answers queries, and it all survives a reopen.
    target.reopen();
    assert_same_contents(&target, &source);
    let filter = age_filter(Op::Eq, 42);
    assert!(matches!(
        target.explain("users", &filter),
        QueryPlan::Index { .. }
    ));
    assert_eq!(
        target.find("users", &filter).len(),
        source.scan("users", &filter).len()
    );
}

#[test]
fn a_hand_written_file_imports() {
    let mut db = Db::open();
    let text = r#"{"$trunkdb_export": 1}

{"$collection": "people", "$indexes": ["name", {"field": "born", "unique": true}]}
{"name": "Ada", "born": 1815, "tags": ["math"]}
{"name": "Grace", "born": 1906}
{"$collection": "notes"}
"#;
    let summary = import_text(&mut db, text).unwrap();
    assert_eq!(
        summary,
        Summary {
            collections: 2,
            documents: 2
        }
    );
    assert_eq!(db.names(), ["notes", "people"]);
    assert_eq!(db.indexes("people"), ["name", "born"]);
    let indexes = db.state.catalog.indexes("people");
    assert!(!indexes[0].unique && indexes[1].unique);
    let found = db.find("people", &name_is("Grace"));
    let Document::Object(map) = &found[0].1 else {
        panic!()
    };
    assert!(*map.get("born").unwrap() == Document::Int(1906));
    assert!(
        matches!(map.get("_id"), Some(Document::Id(_))),
        "got a new id"
    );
}

#[test]
fn an_import_that_breaks_a_unique_index_fails_after_its_documents() {
    let mut db = Db::open();
    let text = r#"{"$trunkdb_export": 1}
{"$collection": "people", "$indexes": [{"field": "email", "unique": true}]}
{"email": "a@x"}
{"email": "a@x"}
"#;
    let Err(Error::DuplicateValue { field, .. }) = import_text(&mut db, text) else {
        panic!("expected DuplicateValue");
    };
    assert_eq!(field, "email");
    assert_eq!(db.count("people", &Filter::default()), 2);
    assert!(db.indexes("people").is_empty());
}

#[test]
fn bad_lines_name_their_line_number() {
    let header = "{\"$trunkdb_export\":1}\n";
    let collection = "{\"$collection\":\"c\"}\n";
    let cases: Vec<(String, usize, &str)> = vec![
        (String::new(), 1, "empty input"),
        ("{\"$trunkdb_export\":2}\n".into(), 1, "version 2"),
        ("{\"a\":1}\n".into(), 1, "first line must be"),
        (format!("{header}{{\"a\":1}}\n"), 2, "before the first"),
        (format!("{header}{collection}not json\n"), 3, "not JSON"),
        (
            format!("{header}{collection}[1]\n"),
            3,
            "must be a JSON object",
        ),
        (
            format!("{header}{collection}{{\"_id\":\"x\"}}\n"),
            3,
            "`_id` must be",
        ),
        (
            format!("{header}{collection}{{\"n\":18446744073709551615}}\n"),
            3,
            "i64",
        ),
        (
            format!("{header}{{\"$collection\":1}}\n"),
            2,
            "must be a string",
        ),
        (
            format!("{header}{{\"$collection\":\"c\",\"$index\":[]}}\n"),
            2,
            "unknown key",
        ),
        (
            format!("{header}{{\"$collection\":\"c\",\"$indexes\":[{{\"unique\":true}}]}}\n"),
            2,
            "must be a field name",
        ),
        (
            format!(
                "{header}{{\"$collection\":\"c\",\"$indexes\":[{{\"field\":\"a\",\"unique\":1}}]}}\n"
            ),
            2,
            "must be a field name",
        ),
    ];
    for (text, line, needle) in cases.iter() {
        let mut db = Db::open();
        match import_text(&mut db, text) {
            Err(Error::Import { line: got, message }) => {
                assert_eq!(got, *line, "{text:?}: {message}");
                assert!(message.contains(needle), "{text:?}: {message}");
            }
            other => panic!("{text:?}: {other:?}"),
        }
    }
}

#[test]
fn import_messages_say_what_is_wrong() {
    let header = "{\"$trunkdb_export\":1}\n";
    let collection = "{\"$collection\":\"c\"}\n";
    let cases = [
        (String::new(), "empty input: no header line"),
        (
            "[]\n".to_string(),
            "the first line must be {\"$trunkdb_export\": 1}",
        ),
        (
            "{\"$trunkdb_export\":12}\n".to_string(),
            "export format version 12 is not supported (this trunkdb reads 1)",
        ),
        (
            format!("{header}{{\"$collection\":\"c\",\"$indexes\": {{\"a\": 1.50}}}}\n"),
            "`$indexes` must be an array, got {\"a\":1.5}",
        ),
        (
            format!("{header}{{\"$collection\":\"c\",\"$indexes\":[\"a\", {{\"unique\": true}}]}}\n"),
            "an `$indexes` entry must be a field name, a list of them, or \
             {\"field\": ..., \"unique\": true}, got {\"unique\":true}",
        ),
        (
            format!("{header}{{}}\n"),
            "a document before the first {\"$collection\": ...} line",
        ),
        (
            format!("{header}{collection}[1]\n"),
            "a document line must be a JSON object",
        ),
        (
            format!("{header}{collection}{{\"_id\":7}}\n"),
            "`_id` must be {\"$id\": \"<uuid>\"}; leave it out to get a new id",
        ),
        (
            format!("{header}{collection}{{\"a\":[1,18446744073709551615]}}\n"),
            "18446744073709551615 doesn't fit in an i64",
        ),
        (
            format!("{header}{collection}{{\"a\":1,\"b\":{{\"$id\":\"x\"}}}}\n"),
            "`$id` \"x\" is not a UUID",
        ),
        (
            format!("{header}{collection}{{\"a\":1,\"b\":{{\"$binary\":\"?\"}}}}\n"),
            "`$binary` \"?\" is not base64",
        ),
        (
            format!("{header}{collection}{{\"a\":1,\"b\":{{\"$float\":\"1\"}}}}\n"),
            "`$float` must be \"NaN\", \"Infinity\" or \"-Infinity\", got \"1\"",
        ),
        (
            format!("{header}{collection}{{\"a\":1,\"b\":{{\"$float\":1}}}}\n"),
            "`$float` must hold a string",
        ),
        (
            format!("{header}{collection}{{\"$object\":1}}\n"),
            "`$object` must hold an object",
        ),
        (
            format!("{header}{collection}{{\"a\":1,\"b\":{{\"$value\":1}}}}\n"),
            "`$value` is only allowed at the top of a document line",
        ),
    ];
    for (input, expected) in cases.iter() {
        match import_text(&mut Db::open(), input) {
            Err(Error::Import { message, .. }) => assert_eq!(&message, expected),
            other => panic!("{input:?}: {other:?}"),
        }
    }
    match import_text(&mut Db::open(), &format!("{header}{{\n")) {
        Err(Error::Import { line, message }) => {
            assert_eq!(line, 2);
            assert!(message.starts_with("not JSON: ") && message.len() > 10);
        }
        other => panic!("{other:?}"),
    }
}

#[test]
fn lines_of_white_space_are_passed_over() {
    let mut db = Db::open();
    let text = "\u{2003}\u{a0}\t\n\u{85}{\"$trunkdb_export\":1}\n\u{3000}\n{\"$collection\":\"c\"}\n \n{\"a\":1}\n";
    // The second line's first character is no white space of JSON's.
    match import_text(&mut db, text) {
        Err(Error::Import { line, .. }) => assert_eq!(line, 2),
        other => panic!("{other:?}"),
    }
    let text = text.replace("\u{85}{", "{");
    let summary = import_text(&mut db, &text).unwrap();
    assert_eq!((summary.collections, summary.documents), (1, 1));
}

#[test]
fn an_existing_id_stops_the_import_after_the_earlier_chunks() {
    let mut source = Db::open();
    let ops = (0..2500u128)
        .map(|i| WriteOp::Insert("c".into(), DocId(i.to_be_bytes()), Document::Int(i as i64)))
        .collect();
    source.write(ops).unwrap();
    let text = export_text(&source);

    let mut target = Db::open();
    // Id 1500 is in the second chunk (documents 1000..2000).
    let id = DocId(1500u128.to_be_bytes());
    target
        .write(vec![WriteOp::Insert("c".into(), id, Document::Null)])
        .unwrap();
    let err = import_text(&mut target, &text).unwrap_err();
    assert!(matches!(err, Error::DuplicateId { .. }), "{err:?}");
    // The first chunk is in, the failed one rolled back entirely.
    assert_eq!(target.count("c", &Filter::default()), 1001);
}

// Random documents and filters: what an index finds is what reading every
// document finds.

fn random_value(rng: &mut XorShift) -> Document {
    let big = 1i64 << 53;
    match rng.below(10) {
        0 | 1 => Document::Int(rng.below(11) as i64 - 5),
        2 => Document::Int(big + rng.below(4) as i64),
        3 => float((rng.below(21) as f64 - 10.0) / 2.0),
        4 => [float(-0.0), float(f64::NAN)][rng.below(2)].clone(),
        5 | 6 => text(["", "a", "ab", "b", "B", "a\0"][rng.below(6)]),
        7 => Document::String("x".repeat(1200) + ["a", "b", ""][rng.below(3)]),
        8 => Document::Bool(rng.below(2) == 1),
        _ => [Document::Null, Document::Array(vec![Document::Int(1)])][rng.below(2)].clone(),
    }
}

fn random_document(rng: &mut XorShift) -> Document {
    let mut fields = vec![("w", Document::Int(rng.below(3) as i64))];
    if rng.below(8) != 0 {
        fields.push(("v", random_value(rng)));
    }
    // Padding of very different sizes, so an update often no longer fits its
    // page and moves the document. Now and then large enough for overflow
    // pages.
    let pad = [0, 0, 1500, 3000, 4500, 9000][rng.below(6)];
    fields.push(("pad", Document::String("y".repeat(pad))));
    object(&fields)
}

fn random_nested_document(rng: &mut XorShift) -> Document {
    let v = random_value(rng);
    let a = match rng.below(8) {
        0..=3 => object(&[("b", object(&[("c", v), ("d", Document::Int(1))]))]),
        4 => object(&[("b", v)]),
        5 => object(&[("b.c", v)]),
        6 => Document::Array(vec![object(&[("b", object(&[("c", v)]))])]),
        _ => v,
    };
    let mut fields = vec![("w", Document::Int(rng.below(3) as i64))];
    match rng.below(8) {
        0 => fields.push(("a.b.c", random_value(rng))),
        1 => {}
        _ => fields.push(("a", a)),
    }
    let pad = [0, 0, 1500, 9000][rng.below(4)];
    fields.push(("pad", Document::String("y".repeat(pad))));
    object(&fields)
}

fn random_array_document(rng: &mut XorShift) -> Document {
    let mut fields = vec![("w", Document::Int(rng.below(3) as i64))];
    match rng.below(8) {
        0 => {}
        1 => fields.push(("tags", random_value(rng))),
        _ => {
            let tags = (0..rng.below(5)).map(|_| random_value(rng)).collect();
            fields.push(("tags", Document::Array(tags)));
        }
    }
    let items = (0..rng.below(4))
        .map(|_| match rng.below(6) {
            0 => object(&[]),
            1 => random_value(rng),
            _ => object(&[("n", random_value(rng))]),
        })
        .collect();
    fields.push(("items", Document::Array(items)));
    let pad = [0, 0, 1500, 4500, 9000][rng.below(5)];
    fields.push(("pad", Document::String("y".repeat(pad))));
    object(&fields)
}

fn random_compound_document(rng: &mut XorShift) -> Document {
    let mut fields = Vec::new();
    match rng.below(10) {
        0 => {}
        1 => fields.push(("a", Document::Null)),
        2 => fields.push(("a", Document::Array(vec![Document::Int(1)]))),
        _ => fields.push(("a", Document::Int(rng.below(3) as i64))),
    }
    if rng.below(8) != 0 {
        fields.push(("b", random_value(rng)));
    }
    fields.push(("c", Document::Int(rng.below(3) as i64)));
    let pad = [0, 0, 1500, 4500][rng.below(4)];
    fields.push(("pad", Document::String("y".repeat(pad))));
    object(&fields)
}

const OPS: [Op; 5] = [Op::Eq, Op::Lt, Op::Lte, Op::Gt, Op::Gte];

fn random_filter(rng: &mut XorShift, path: &str) -> Filter {
    let mut conditions = vec![Condition::on(path, OPS[rng.below(5)], random_value(rng))];
    match rng.below(3) {
        0 => conditions.push(Condition::on(path, OPS[rng.below(5)], random_value(rng))),
        1 => conditions.push(Condition::eq("w", Document::Int(rng.below(3) as i64))),
        _ => {}
    }
    Filter {
        conditions,
        ..Filter::default()
    }
}

fn random_sorted_filter(rng: &mut XorShift) -> Filter {
    let conditions = match rng.below(6) {
        0 => vec![Condition::on("v", OPS[rng.below(5)], random_value(rng))],
        1 => vec![Condition::eq("w", Document::Int(rng.below(3) as i64))],
        2 => vec![Condition::ne("v", random_value(rng))],
        3 => vec![Condition::eq("pad", text(""))],
        _ => vec![],
    };
    let order = [SortOrder::Asc, SortOrder::Desc][rng.below(2)];
    let field = ["v", "v", "w"][rng.below(3)].to_string();
    let limits = [
        None,
        Some(0),
        Some(1),
        Some(2),
        Some(5),
        Some(20),
        Some(60),
        Some(1000),
    ];
    Filter {
        conditions,
        sort: vec![Sort { field, order }],
        limit: limits[rng.below(limits.len())],
    }
}

fn random_compound_filter(rng: &mut XorShift) -> Filter {
    let mut conditions = Vec::new();
    for _ in 0..rng.below(4) {
        conditions.push(match rng.below(9) {
            0 | 1 => Condition::eq("a", Document::Int(rng.below(4) as i64)),
            2 => Condition::on("a", OPS[rng.below(5)], Document::Int(rng.below(4) as i64)),
            3 => Condition::on("b", OPS[rng.below(5)], random_value(rng)),
            4 => Condition::eq("c", Document::Int(rng.below(3) as i64)),
            5 => Condition::eq("a", Document::Null),
            6 => Condition::ne(["a", "b"][rng.below(2)], Document::Null),
            7 => Condition::eq("b", Document::Int(rng.below(11) as i64 - 5)),
            _ => Condition::ne("b", random_value(rng)),
        });
    }
    let mut fields = vec!["a", "b", "c"];
    let order = [SortOrder::Asc, SortOrder::Desc][rng.below(2)];
    let sort = (0..rng.below(4))
        .map(|_| Sort {
            field: fields.remove(rng.below(fields.len())).to_string(),
            order: match rng.below(4) {
                0 => [SortOrder::Asc, SortOrder::Desc][rng.below(2)],
                _ => order,
            },
        })
        .collect();
    let limits = [None, Some(0), Some(1), Some(3), Some(10), Some(1000)];
    Filter {
        conditions,
        sort,
        limit: limits[rng.below(limits.len())],
    }
}

/// What a filter finds among documents in id order.
fn by_hand(all: &[(DocId, Document)], filter: &Filter) -> Vec<DocId> {
    let mut found: Vec<&(DocId, Document)> =
        all.iter().filter(|(_, doc)| filter.matches(doc)).collect();
    found.sort_by(|x, y| match sort_documents(&filter.sort, &x.1, &y.1) {
        Relation::Less => std::cmp::Ordering::Less,
        Relation::Equal => std::cmp::Ordering::Equal,
        Relation::Greater => std::cmp::Ordering::Greater,
    });
    let limit = filter.limit.unwrap_or(usize::MAX);
    found.into_iter().map(|(id, _)| *id).take(limit).collect()
}

fn ids_of(found: Vec<(DocId, Document)>) -> Vec<DocId> {
    found.into_iter().map(|(id, _)| id).collect()
}

/// The file checks out, is compacted, and checks out again.
fn check_and_compact(db: &mut Db) {
    db.assert_consistent();
    let compacted = db.compact().unwrap();
    assert!(compacted.pages_after <= compacted.pages_before);
    db.assert_consistent();
}

fn index_agrees_with_scan(db: &mut Db, rng: &mut XorShift, path: &str) {
    check_and_compact(db);
    let all = db.find("docs", &Filter::default());
    for _ in 0..300 {
        let f = random_filter(rng, path);
        let mut expected = by_hand(&all, &f);
        expected.sort();
        let plan = db.explain("docs", &f);
        let mut found = ids_of(db.find("docs", &f));
        found.sort();
        assert_eq!(found, expected, "{f:?} via {plan:?}");
    }
}

/// Inserts, updates and deletes through batches, with indexes made halfway.
fn write_randomly(
    db: &mut Db,
    rng: &mut XorShift,
    fields: &[&str],
    options: IndexOptions,
    random: fn(&mut XorShift) -> Document,
) {
    let mut ids = Vec::new();
    for round in 0..12 {
        if round == 6 {
            for field in fields {
                assert!(db.index_with("docs", *field, options).unwrap());
            }
        }
        let ops = (0..25)
            .map(|_| {
                let id = UuidV7Generator.generate();
                ids.push(id);
                WriteOp::Insert("docs".into(), id, random(rng))
            })
            .collect();
        db.write(ops).unwrap();
    }
    for _ in 0..6 {
        let mut ops = Vec::new();
        for _ in 0..25 {
            let id = ids[rng.below(ids.len())];
            let new = match db.get("docs", &id) {
                // Half the time only the padding changes, so a key stays and
                // only a move touches it.
                Some(Document::Object(mut fields)) if rng.below(2) == 0 => {
                    let pad = "z".repeat([0, 4500, 9000][rng.below(3)]);
                    fields.insert("pad".into(), Document::String(pad));
                    Document::Object(fields)
                }
                _ => random(rng),
            };
            ops.push(WriteOp::Update("docs".into(), id, new));
        }
        db.write(ops).unwrap();
    }
    let mut ops = Vec::new();
    for _ in 0..60 {
        let id = ids.swap_remove(rng.below(ids.len()));
        ops.push(WriteOp::Delete("docs".into(), id));
    }
    db.write(ops).unwrap();
}

fn indexed_finds_match_full_scans(options: IndexOptions) {
    let mut rng = XorShift(0x2545_F491_4F6C_DD1D);
    let mut db = Db::open();
    write_randomly(&mut db, &mut rng, &["v"], options, random_document);
    assert_eq!(
        db.explain("docs", &Filter::new().eq("v", 1.into())),
        QueryPlan::Index {
            field: "v".to_string()
        }
    );
    index_agrees_with_scan(&mut db, &mut rng, "v");
    db.reopen();
    assert_eq!(db.indexes("docs"), ["v"]);
    index_agrees_with_scan(&mut db, &mut rng, "v");
}

#[test]
fn indexed_finds_match_full_scans_through_every_kind_of_write() {
    indexed_finds_match_full_scans(PLAIN);
}

#[test]
fn sparse_finds_match_full_scans_through_every_kind_of_write() {
    indexed_finds_match_full_scans(SPARSE);
}

#[test]
fn nested_path_indexes_match_full_scans_through_every_kind_of_write() {
    let mut rng = XorShift(0x9E37_79B9_7F4A_7C15);
    let mut db = Db::open();
    write_randomly(
        &mut db,
        &mut rng,
        &["a.b.c"],
        PLAIN,
        random_nested_document,
    );
    let reachable = db
        .find("docs", &Filter::default())
        .iter()
        .filter(|(_, doc)| !values_at(doc, "a.b.c").is_empty())
        .count();
    assert!(reachable > 50, "only {reachable} documents have the path");
    assert_eq!(
        db.explain("docs", &Filter::new().eq("a.b.c", 1.into())),
        QueryPlan::Index {
            field: "a.b.c".to_string()
        }
    );
    index_agrees_with_scan(&mut db, &mut rng, "a.b.c");
    db.reopen();
    assert_eq!(db.indexes("docs"), ["a.b.c"]);
    index_agrees_with_scan(&mut db, &mut rng, "a.b.c");
}

fn multikey_finds_match_full_scans(options: IndexOptions) {
    let mut rng = XorShift(0x6A09_E667_F3BC_C908);
    let mut db = Db::open();
    let paths = ["tags[*]", "items[*].n"];
    write_randomly(&mut db, &mut rng, &paths, options, random_array_document);
    for path in paths {
        assert_eq!(
            db.explain("docs", &Filter::new().eq(path, 1.into())),
            QueryPlan::Index {
                field: path.to_string()
            }
        );
        index_agrees_with_scan(&mut db, &mut rng, path);
    }
    db.reopen();
    assert_eq!(db.indexes("docs"), paths);
    for path in paths {
        index_agrees_with_scan(&mut db, &mut rng, path);
    }
}

/// A document has as many entries as elements, and every write keeps exactly
/// those.
#[test]
fn multikey_finds_match_full_scans_through_every_kind_of_write() {
    multikey_finds_match_full_scans(PLAIN);
}

/// Sparse, a multikey index leaves out the null elements.
#[test]
fn sparse_multikey_finds_match_full_scans_through_every_kind_of_write() {
    multikey_finds_match_full_scans(SPARSE);
}

#[test]
fn sorting_through_an_index_matches_sorting_in_memory() {
    let mut rng = XorShift(0x0BAD_5EED_1234_5678);
    let mut db = Db::open();
    write_randomly(&mut db, &mut rng, &["v", "w"], PLAIN, random_document);
    for _ in 0..2 {
        check_and_compact(&mut db);
        let all = db.find("docs", &Filter::default());
        let mut plans = std::collections::HashSet::new();
        for _ in 0..300 {
            let f = random_sorted_filter(&mut rng);
            let expected = by_hand(&all, &f);
            let plan = db.explain("docs", &f);
            let found = ids_of(db.find("docs", &f));
            assert_eq!(found, expected, "{f:?} via {plan:?}");
            plans.insert(format!("{plan:?}"));
        }
        for plan in [
            r#"IndexOrder { field: "v" }"#,
            r#"IndexOrder { field: "w" }"#,
            r#"Index { field: "v" }"#,
            r#"Index { field: "w" }"#,
            "Scan",
        ] {
            assert!(plans.contains(plan), "{plan} never ran: {plans:?}");
        }
        db.reopen();
    }
}

fn compound_finds_agree(db: &Db, rng: &mut XorShift, expected_plans: &[&str]) {
    db.assert_consistent();
    let mut all = db.find("docs", &Filter::default());
    all.sort_by_key(|(id, _)| *id);
    let mut plans = std::collections::HashSet::new();
    for _ in 0..400 {
        let f = random_compound_filter(rng);
        let mut expected = by_hand(&all, &f);
        let plan = db.explain("docs", &f);
        let mut found = ids_of(db.find("docs", &f));
        if f.sort.is_empty() {
            expected.sort();
            found.sort();
        }
        if f.sort.is_empty() && f.limit.is_some() {
            // Which documents a limit without a sort keeps isn't promised:
            // any that match, as many as it allows.
            assert_eq!(found.len(), expected.len(), "{f:?} via {plan:?}");
            for id in &found {
                let (_, doc) = all.iter().find(|(other, _)| other == id).unwrap();
                assert!(f.matches(doc), "{f:?} via {plan:?}");
            }
        } else {
            assert_eq!(found, expected, "{f:?} via {plan:?}");
        }
        plans.insert(format!("{plan:?}"));
    }
    for plan in expected_plans {
        assert!(plans.contains(*plan), "{plan} never ran: {plans:?}");
    }
}

/// Inserts, updates that move documents, deletes and a reopen.
fn compound_finds_match_full_scans(
    options: IndexOptions,
    single: &[&str],
    expected_plans: &[&str],
) {
    let mut rng = XorShift(0xBB67_AE85_84CA_A73B);
    let mut db = Db::open();
    db.index_with("docs", ["a", "b"], options).unwrap();
    db.index_with("docs", ["a", "b", "c"], options).unwrap();
    write_randomly(&mut db, &mut rng, single, options, random_compound_document);
    compound_finds_agree(&db, &mut rng, expected_plans);
    db.reopen();
    let mut names = vec!["(a, b)", "(a, b, c)"];
    names.extend(single);
    assert_eq!(db.indexes("docs"), names);
    compound_finds_agree(&db, &mut rng, expected_plans);
}

/// The compound plans run, and find what sorting a scan in memory finds: the
/// same documents, and for a sorted filter the same order.
#[test]
fn compound_finds_match_full_scans_through_every_kind_of_write() {
    compound_finds_match_full_scans(
        PLAIN,
        &[],
        &[
            r#"Index { field: "(a, b)" }"#,
            r#"IndexOrder { field: "(a, b)" }"#,
            r#"IndexOrder { field: "(a, b, c)" }"#,
        ],
    );
}

/// Sparse, a compound index leaves out a document null in all of its fields,
/// and a one-field index every null.
#[test]
fn sparse_compound_finds_match_full_scans_through_every_kind_of_write() {
    compound_finds_match_full_scans(
        SPARSE,
        &["b"],
        &[
            r#"Index { field: "(a, b)" }"#,
            r#"IndexOrder { field: "(a, b)" }"#,
            r#"IndexOrder { field: "(a, b, c)" }"#,
            r#"Index { field: "b" }"#,
            r#"IndexOrder { field: "b" }"#,
            "Scan",
        ],
    );
}

/// A random condition up to `depth` levels deep: comparisons with every
/// operator on the indexed `v` and `w`, the unindexed `pad` and a field no
/// document has, combined by ANDs, ORs (empty ones too) and NOTs.
fn random_condition(rng: &mut XorShift, depth: usize) -> Condition {
    if depth == 0 || rng.below(3) == 0 {
        let ops = [
            Op::Eq,
            Op::Ne,
            Op::Lt,
            Op::Lte,
            Op::Gt,
            Op::Gte,
            Op::Contains,
        ];
        let op = ops[rng.below(ops.len())];
        return match rng.below(6) {
            0..=2 => Condition::on("v", op, random_value(rng)),
            3 => Condition::on("w", op, Document::Int(rng.below(4) as i64)),
            4 => Condition::on("pad", op, text("")),
            _ => Condition::on("nowhere", op, random_value(rng)),
        };
    }
    let children: Vec<Condition> = (0..rng.below(4))
        .map(|_| random_condition(rng, depth - 1))
        .collect();
    match rng.below(5) {
        0 => Condition::All(children),
        1 => Condition::Not(Box::new(random_condition(rng, depth - 1))),
        _ => Condition::Any(children),
    }
}

fn copied_condition(condition: &Condition) -> Condition {
    let all = |conditions: &Vec<Condition>| conditions.iter().map(copied_condition).collect();
    match condition {
        Condition::Compare { field, op, value } => Condition::on(field, *op, value.clone()),
        Condition::All(conditions) => Condition::All(all(conditions)),
        Condition::Any(conditions) => Condition::Any(all(conditions)),
        Condition::Not(inner) => Condition::Not(Box::new(copied_condition(inner))),
    }
}

fn copied_sort(sort: &Sort) -> Sort {
    Sort {
        field: sort.field.clone(),
        order: sort.order,
    }
}

fn copied(filter: &Filter) -> Filter {
    Filter {
        conditions: filter.conditions.iter().map(copied_condition).collect(),
        sort: filter.sort.iter().map(copied_sort).collect(),
        limit: filter.limit,
    }
}

/// Every random nested filter finds, counts and streams exactly what checking
/// every document finds, whichever plan it runs.
fn nested_filters_agree_with_a_scan(db: &Db, rng: &mut XorShift) {
    db.assert_consistent();
    let mut all = db.find("docs", &Filter::default());
    all.sort_by_key(|(id, _)| *id);
    let mut plans = std::collections::HashSet::new();
    for _ in 0..400 {
        let mut f = Filter::new();
        for _ in 0..1 + rng.below(2) {
            f = f.and(random_condition(rng, 3));
        }
        if rng.below(3) == 0 {
            f = f.sort_desc("v").limit([1, 5, 50][rng.below(3)]);
            // Ties in `v` by `w`: the index on `v` gives the order of `v`
            // only, `w` is sorted in memory.
            if rng.below(2) == 0 {
                f.sort.push(Sort {
                    field: "w".to_string(),
                    order: [SortOrder::Asc, SortOrder::Desc][rng.below(2)],
                });
            }
        }
        let mut expected = by_hand(&all, &f);
        let plan = db.explain("docs", &f);
        let mut found = ids_of(db.find("docs", &f));
        let mut streamed = Vec::new();
        let mut cursor =
            Cursor::open(&db.state.catalog, &db.state.store, "docs", copied(&f)).unwrap();
        while let Some(next) = cursor.next(&db.state.catalog, &db.state.store) {
            streamed.push(next.unwrap().0);
        }
        if f.sort.is_empty() {
            expected.sort();
            found.sort();
            streamed.sort();
        }
        assert_eq!(found, expected, "{f:?} via {plan:?}");
        assert_eq!(streamed, expected, "cursor: {f:?} via {plan:?}");
        let unsorted = Filter {
            sort: Vec::new(),
            ..copied(&f)
        };
        let counted = db.count("docs", &unsorted);
        assert_eq!(counted, expected.len(), "count: {f:?} via {plan:?}");
        plans.insert(std::mem::discriminant(&plan));
    }
    assert_eq!(plans.len(), 4, "scan, index, union and order all ran");
}

fn insert_randomly(db: &mut Db, rng: &mut XorShift, count: usize) {
    let ops = (0..count)
        .map(|_| WriteOp::Insert("docs".into(), UuidV7Generator.generate(), random_document(rng)))
        .collect();
    db.write(ops).unwrap();
}

fn sorted_ids(found: Vec<(DocId, Document)>) -> Vec<DocId> {
    let mut ids = ids_of(found);
    ids.sort();
    ids
}

#[test]
fn nested_filters_find_what_a_scan_finds_on_every_plan() {
    let mut rng = XorShift(0x5151_7A7A_0F0F_3C3C);
    let mut db = Db::open();
    db.index("docs", "v").unwrap();
    db.index("docs", "w").unwrap();
    for _ in 0..10 {
        insert_randomly(&mut db, &mut rng, 25);
    }
    nested_filters_agree_with_a_scan(&db, &mut rng);
    db.reopen();
    nested_filters_agree_with_a_scan(&db, &mut rng);
}

/// A random filter, half the time sorted by `v` and limited.
fn random_choice(rng: &mut XorShift) -> Filter {
    let mut f = Filter::new().and(random_condition(rng, 2));
    if rng.below(2) == 0 {
        f.sort = vec![Sort {
            field: "v".to_string(),
            order: [SortOrder::Asc, SortOrder::Desc][rng.below(2)],
        }];
        f = f.limit(rng.below(8));
    }
    f
}

/// Each deletion removes exactly what the same filter found just before, and
/// the indexes still agree with a scan afterwards.
#[test]
fn delete_many_matches_find_through_random_filters() {
    let mut db = Db::open();
    db.index("docs", "v").unwrap();
    db.index("docs", "w").unwrap();
    let mut rng = XorShift(0x7777_1234_ABCD_0001);
    let mut deleted_any = 0;
    for _ in 0..40 {
        insert_randomly(&mut db, &mut rng, 20);
        let f = random_choice(&mut rng);
        let before = sorted_ids(db.find("docs", &Filter::new()));
        let doomed = sorted_ids(db.find("docs", &f));
        let deleted = db
            .transact(|catalog, store| delete_many(catalog, store, "docs", &f))
            .unwrap();
        assert_eq!(deleted, doomed.len(), "{f:?}");
        let after = sorted_ids(db.find("docs", &Filter::new()));
        let expected: Vec<DocId> = before
            .into_iter()
            .filter(|id| !doomed.contains(id))
            .collect();
        assert_eq!(after, expected, "{f:?}");
        deleted_any += doomed.len();
    }
    assert!(deleted_any > 100, "only {deleted_any} deleted");
    index_agrees_with_scan(&mut db, &mut rng, "v");
    nested_filters_agree_with_a_scan(&db, &mut rng);
}

/// A change gives `v` a random new value, or leaves the document alone: the
/// count and every document afterwards match a model, and the indexes still
/// agree with a scan.
#[test]
fn update_many_matches_a_model_through_random_filters() {
    let mut db = Db::open();
    db.index("docs", "v").unwrap();
    db.index("docs", "w").unwrap();
    let mut rng = XorShift(0x0DDB_A11C_0FFE_E123);
    let as_text = |all: Vec<(DocId, Document)>| {
        let mut all: Vec<(DocId, String)> = all
            .into_iter()
            .map(|(id, doc)| (id, format!("{doc:?}")))
            .collect();
        all.sort();
        all
    };
    let mut changed_any = 0;
    for _ in 0..30 {
        insert_randomly(&mut db, &mut rng, 15);
        let f = random_choice(&mut rng);
        let mut model = db.find("docs", &Filter::new());
        let matched = db.find("docs", &f);
        // What the change will do to each match, decided up front.
        let new_values: Vec<Option<Document>> = matched
            .iter()
            .map(|_| match rng.below(4) {
                0 => None,
                _ => Some(random_value(&mut rng)),
            })
            .collect();
        let mut expected_changes = 0;
        for ((id, old), new_v) in matched.iter().zip(&new_values) {
            let Some(new_v) = new_v else { continue };
            let mut new = old.clone();
            put(&mut new, "v", new_v.clone());
            if encode_document(&new) != encode_document(old) {
                expected_changes += 1;
                let slot = model.iter_mut().find(|(other, _)| other == id).unwrap();
                slot.1 = new;
            }
        }
        let mut values = new_values.into_iter();
        let n = change_many(&mut db, "docs", &f, |doc| {
            if let Some(new_v) = values.next().unwrap() {
                put(doc, "v", new_v);
            }
        })
        .unwrap();
        assert_eq!(n, expected_changes, "{f:?}");
        assert_eq!(
            as_text(db.find("docs", &Filter::new())),
            as_text(model),
            "{f:?}"
        );
        changed_any += n;
    }
    assert!(changed_any > 50, "only {changed_any} changed");
    index_agrees_with_scan(&mut db, &mut rng, "v");
    nested_filters_agree_with_a_scan(&db, &mut rng);
}

/// Single-op batches against a unique index on `v`: each fails exactly when a
/// scan finds another document with an equal, non-null `v`, and a failed one
/// changes nothing.
fn a_unique_index_refuses_what_a_scan_finds_taken(sparse: bool) {
    let mut db = Db::open();
    let options = IndexOptions {
        unique: true,
        sparse,
    };
    db.index_with("docs", "v", options).unwrap();
    let mut rng = XorShift(0xD1B5_4A32_D192_ED03);
    let mut ids: Vec<DocId> = Vec::new();
    let (mut accepted, mut refused) = (0, 0);
    for _ in 0..300 {
        let before = db.find("docs", &Filter::default());
        let doc = random_document(&mut rng);
        let (op, id) = match rng.below(4) {
            0 if !ids.is_empty() => {
                let id = ids[rng.below(ids.len())];
                (WriteOp::Delete("docs".into(), id), None)
            }
            1 | 2 if !ids.is_empty() => {
                let id = ids[rng.below(ids.len())];
                (WriteOp::Update("docs".into(), id, doc.clone()), Some(id))
            }
            _ => {
                let id = UuidV7Generator.generate();
                (WriteOp::Insert("docs".into(), id, doc.clone()), Some(id))
            }
        };
        let value = value_or_null(&doc, "v");
        let taken = id.is_some()
            && !matches!(value, Document::Null)
            && before.iter().any(|(other, stored)| {
                Some(*other) != id && equal(&value_or_null(stored, "v"), &value)
            });
        let shown = format!("{op:?}");
        let (inserted, deleted) = match &op {
            WriteOp::Insert(_, id, _) => (Some(*id), None),
            WriteOp::Delete(_, id) => (None, Some(*id)),
            WriteOp::Update(..) => (None, None),
        };
        match (db.write(vec![op]), taken) {
            (Ok(()), false) => {
                accepted += 1;
                ids.extend(inserted);
                ids.retain(|other| Some(*other) != deleted);
            }
            (Err(Error::DuplicateValue { .. }), true) => {
                refused += 1;
                let after = db.find("docs", &Filter::default());
                assert_eq!(sorted_ids(after), sorted_ids(before));
            }
            (result, taken) => panic!("{shown}: {result:?}, but taken = {taken}"),
        }
    }
    assert!(accepted > 100 && refused > 20, "{accepted} / {refused}");
    index_agrees_with_scan(&mut db, &mut rng, "v");
}

#[test]
fn a_unique_index_refuses_exactly_what_a_scan_finds_taken() {
    a_unique_index_refuses_what_a_scan_finds_taken(false);
}

#[test]
fn a_unique_sparse_index_refuses_exactly_what_a_scan_finds_taken() {
    a_unique_index_refuses_what_a_scan_finds_taken(true);
}

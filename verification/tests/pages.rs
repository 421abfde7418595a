use trunkdb::catalog::chain::CATALOG_PAGE_ID;
use trunkdb::catalog::entry::{
    decode_entry, encode_collection, encode_index, Entry, COLLECTION_NAME_AT, KIND_INDEX,
    KIND_INDEX_WITH_FLAGS, KIND_UNIQUE_INDEX,
};
use trunkdb::catalog::{
    Catalog, CollectionMeta, IndexMeta, IndexOptions, MAX_COLLECTION_NAME_LEN, MAX_FIELD_NAME_LEN,
};
use trunkdb::data::{
    delete_record, get_record, insert_record, read_data_page, update_record, Records,
    CELL_HEADER_LEN, INLINE, OVERFLOW, OVERFLOW_CAPACITY,
};
use trunkdb::document::{DocId, Document};
use trunkdb::error::{Error, ErrorKind};
use trunkdb::storage::{
    MemoryStore, PageId, PageStore, PageType, RecordLocation, SlottedPage, USABLE_PAGE_SIZE,
};

fn id(n: u8) -> DocId {
    DocId([n; 16])
}

fn blob(len: usize) -> Document {
    Document::Binary(vec![0xAB; len])
}

fn flags(store: &MemoryStore, loc: RecordLocation) -> u8 {
    read_data_page(store, loc.page)
        .unwrap()
        .get_cell(loc.slot)
        .unwrap()[0]
}

/// Size of a `blob` whose inline cell exactly fills an empty data page.
fn largest_inline_blob() -> usize {
    let empty = SlottedPage::new(PageType::Data);
    let largest_cell = (0..USABLE_PAGE_SIZE)
        .rev()
        .find(|&n| empty.has_room_for(n))
        .unwrap();
    // flags + id, then the Binary tag and its u32 length.
    largest_cell - CELL_HEADER_LEN - 5
}

#[test]
fn records_are_read_in_any_order() {
    let mut store = MemoryStore::new();
    let mut current = 0;
    let locs: Vec<RecordLocation> = (0..30u8)
        .map(|n| insert_record(&mut store, &mut current, id(n), &blob(1000)).unwrap())
        .collect();
    let pages: Vec<PageId> = locs.iter().map(|loc| loc.page).collect();
    assert!(pages[0] == pages[1] && pages[0] != pages[29], "{pages:?}");

    let mut records = Records::new(&store);
    for (n, loc) in locs.iter().enumerate() {
        assert!(records.get(*loc).unwrap() == (id(n as u8), blob(1000)));
    }
    for n in [0, 29, 1] {
        assert_eq!(records.get(locs[n]).unwrap().0, id(n as u8));
    }
}

#[test]
fn unknown_flags_are_rejected() {
    let mut store = MemoryStore::new();
    let mut current = 0;
    let loc = insert_record(&mut store, &mut current, id(1), &Document::Null).unwrap();
    let mut page = read_data_page(&store, loc.page).unwrap();
    let mut cell = page.get_cell(loc.slot).unwrap().to_vec();
    cell[0] = 0x7F;
    assert!(page.update_cell(loc.slot, &cell));
    store.write_page(loc.page, &page.into_bytes()).unwrap();

    assert_eq!(
        get_record(&store, loc).unwrap_err().kind(),
        ErrorKind::InvalidData
    );
}

#[test]
fn data_insert_then_get_roundtrips() {
    let mut store = MemoryStore::new();
    let mut current = 0;

    let doc = Document::String("Ada".to_string());
    let loc = insert_record(&mut store, &mut current, id(1), &doc).unwrap();
    assert_eq!(
        current, loc.page,
        "the first insert allocates the current page"
    );

    let (found_id, found_doc) = get_record(&store, loc).unwrap();
    assert_eq!(found_id, id(1));
    assert!(found_doc == doc);
}

#[test]
fn small_documents_share_a_page_until_it_fills() {
    let mut store = MemoryStore::new();
    let mut current = 0;

    let first = insert_record(&mut store, &mut current, id(0), &blob(1000)).unwrap();
    let mut locs = vec![first];
    while current == first.page {
        let n = locs.len() as u8;
        locs.push(insert_record(&mut store, &mut current, id(n), &blob(1000)).unwrap());
    }

    // Seven ~1 KB documents fit in 8 KB; the eighth opened a new page.
    assert_eq!(locs.len(), 8);
    for (slot, loc) in locs[..7].iter().enumerate() {
        assert_eq!(
            *loc,
            RecordLocation {
                page: first.page,
                slot: slot as u16
            }
        );
    }
    assert_eq!(locs[7].slot, 0);
    for (n, loc) in locs.iter().enumerate() {
        assert_eq!(get_record(&store, *loc).unwrap().0, id(n as u8));
    }
}

#[test]
fn update_in_place_keeps_the_location() {
    let mut store = MemoryStore::new();
    let mut current = 0;
    let loc = insert_record(&mut store, &mut current, id(2), &Document::Int(1)).unwrap();
    let neighbor = insert_record(&mut store, &mut current, id(3), &blob(500)).unwrap();

    let new_loc = update_record(&mut store, &mut current, loc, id(2), &blob(3000)).unwrap();

    assert_eq!(new_loc, loc);
    assert!(get_record(&store, loc).unwrap().1 == blob(3000));
    assert!(get_record(&store, neighbor).unwrap().1 == blob(500));
}

#[test]
fn update_that_outgrows_its_page_moves_the_document() {
    let mut store = MemoryStore::new();
    let mut current = 0;
    let a = insert_record(&mut store, &mut current, id(1), &blob(3000)).unwrap();
    let b = insert_record(&mut store, &mut current, id(2), &blob(3000)).unwrap();

    let moved = update_record(&mut store, &mut current, a, id(1), &blob(6000)).unwrap();

    assert_ne!(moved.page, a.page);
    assert_eq!(current, moved.page, "the move allocated a new current page");
    assert!(get_record(&store, moved).unwrap() == (id(1), blob(6000)));
    assert!(get_record(&store, b).unwrap() == (id(2), blob(3000)));
    assert_eq!(
        get_record(&store, a).unwrap_err().kind(),
        ErrorKind::InvalidData,
        "the old slot is gone"
    );
}

#[test]
fn delete_frees_a_page_once_it_is_empty_but_not_the_current_one() {
    let mut store = MemoryStore::new();
    let mut current = 0;
    let a = insert_record(&mut store, &mut current, id(1), &blob(5000)).unwrap();
    let b = insert_record(&mut store, &mut current, id(2), &blob(5000)).unwrap();
    assert_ne!(a.page, b.page);
    assert_eq!(current, b.page);

    // b's page is current: emptied, but kept for the next insert.
    delete_record(&mut store, current, b).unwrap();
    let c = insert_record(&mut store, &mut current, id(3), &Document::Null).unwrap();
    assert_eq!(c.page, b.page);

    // a's page isn't: emptying it frees it for reuse.
    delete_record(&mut store, current, a).unwrap();
    assert_eq!(store.allocate_page().unwrap(), a.page);
}

#[test]
fn deleted_space_on_the_current_page_is_reused() {
    let mut store = MemoryStore::new();
    let mut current = 0;
    let a = insert_record(&mut store, &mut current, id(1), &blob(4000)).unwrap();
    insert_record(&mut store, &mut current, id(2), &blob(4000)).unwrap();

    delete_record(&mut store, current, a).unwrap();
    let c = insert_record(&mut store, &mut current, id(3), &blob(4000)).unwrap();

    assert_eq!(c, a, "same page, same (reused) slot");
}

#[test]
fn a_document_goes_to_overflow_pages_exactly_when_it_cannot_be_inline() {
    let mut store = MemoryStore::new();
    let mut current = 0;
    let largest = largest_inline_blob();

    let inline = insert_record(&mut store, &mut current, id(1), &blob(largest)).unwrap();
    let overflow = insert_record(&mut store, &mut current, id(2), &blob(largest + 1)).unwrap();

    assert_eq!(flags(&store, inline), INLINE);
    assert_eq!(flags(&store, overflow), OVERFLOW);
    assert!(get_record(&store, inline).unwrap() == (id(1), blob(largest)));
    assert!(get_record(&store, overflow).unwrap() == (id(2), blob(largest + 1)));
}

#[test]
fn a_large_document_spans_a_chain_and_its_cell_is_packed() {
    let mut store = MemoryStore::new();
    let mut current = 0;
    let small = insert_record(&mut store, &mut current, id(1), &blob(100)).unwrap();

    // 3 × capacity, minus the tag and length: exactly three full pages.
    let big = blob(3 * OVERFLOW_CAPACITY - 5);
    let loc = insert_record(&mut store, &mut current, id(2), &big).unwrap();

    assert_eq!(
        loc.page, small.page,
        "the pointer cell shares the data page"
    );
    // Data page + 3 overflow pages (+ header, catalog-free store).
    assert_eq!(store.allocate_page().unwrap(), small.page + 4);
    assert!(get_record(&store, loc).unwrap() == (id(2), big));
}

#[test]
fn documents_past_64_kb_roundtrip() {
    let mut store = MemoryStore::new();
    let mut current = 0;
    let prose = Document::String("It was a dark and stormy night. ".repeat(10_000));

    let loc = insert_record(&mut store, &mut current, id(1), &prose).unwrap();

    assert!(get_record(&store, loc).unwrap() == (id(1), prose));
}

#[test]
fn updates_switch_between_inline_and_overflow_and_free_old_chains() {
    let mut store = MemoryStore::new();
    let mut current = 0;
    let loc = insert_record(&mut store, &mut current, id(1), &blob(10)).unwrap();
    let data_page = loc.page;

    // Inline → overflow: the cell shrinks to a pointer and stays put.
    let loc = update_record(&mut store, &mut current, loc, id(1), &blob(20_000)).unwrap();
    assert_eq!(loc.page, data_page);
    assert_eq!(flags(&store, loc), OVERFLOW);
    assert!(get_record(&store, loc).unwrap().1 == blob(20_000));

    // Overflow → larger overflow: the old three pages are reused.
    let loc = update_record(&mut store, &mut current, loc, id(1), &blob(30_000)).unwrap();
    assert!(get_record(&store, loc).unwrap().1 == blob(30_000));
    let high_water = store.allocate_page().unwrap();
    assert_eq!(high_water, data_page + 5, "data page + 4 overflow pages");
    store.free_page(high_water).unwrap();

    // Overflow → inline: the chain is freed.
    let loc = update_record(&mut store, &mut current, loc, id(1), &blob(10)).unwrap();
    assert_eq!(flags(&store, loc), INLINE);
    assert!(get_record(&store, loc).unwrap().1 == blob(10));
    let mut freed: Vec<PageId> = (0..5).map(|_| store.allocate_page().unwrap()).collect();
    freed.sort();
    assert_eq!(freed, (data_page + 1..=data_page + 5).collect::<Vec<_>>());
}

#[test]
fn delete_frees_the_chain() {
    let mut store = MemoryStore::new();
    let mut current = 0;
    let keep = insert_record(&mut store, &mut current, id(1), &blob(10)).unwrap();
    let big = insert_record(&mut store, &mut current, id(2), &blob(20_000)).unwrap();

    delete_record(&mut store, current, big).unwrap();

    let mut freed: Vec<PageId> = (0..3).map(|_| store.allocate_page().unwrap()).collect();
    freed.sort();
    assert_eq!(freed, vec![keep.page + 1, keep.page + 2, keep.page + 3]);
    assert_eq!(
        store.allocate_page().unwrap(),
        keep.page + 4,
        "nothing else was free"
    );
}

#[test]
fn a_broken_chain_is_a_corruption_error() {
    let mut store = MemoryStore::new();
    let mut current = 0;
    let loc = insert_record(&mut store, &mut current, id(1), &blob(20_000)).unwrap();
    let page = read_data_page(&store, loc.page).unwrap();
    // flags, id, length, then the chain's first page.
    let cell = page.get_cell(loc.slot).unwrap();
    let first = PageId::from_le_bytes(cell[21..29].try_into().unwrap());
    let first_page = store.read_page(first).unwrap();
    let second = PageId::from_le_bytes(first_page[1..9].try_into().unwrap());

    // Cut the chain after its second page: it ends early.
    let mut page = store.read_page(second).unwrap();
    page[1..9].copy_from_slice(&0u64.to_le_bytes());
    store.write_page(second, &page).unwrap();
    let err = get_record(&store, loc).unwrap_err();
    assert_eq!(err.kind(), ErrorKind::InvalidData);
    assert!(err.to_string().contains("early"));

    // Point it at a page that isn't an overflow page.
    page[1..9].copy_from_slice(&loc.page.to_le_bytes());
    store.write_page(second, &page).unwrap();
    let err = get_record(&store, loc).unwrap_err();
    assert!(err.to_string().contains("isn't an overflow page"));
    assert_eq!(
        delete_record(&mut store, current, loc).unwrap_err().kind(),
        ErrorKind::InvalidData,
        "a delete must not free pages of a chain it can't follow"
    );
}

#[test]
fn get_rejects_wrong_page_type() {
    let mut store = MemoryStore::new();

    // Page 1 is always the catalog's page — asking for it as a data
    // record should be a corruption error, not a misdecoded document.
    let _catalog = Catalog::load(&mut store).unwrap();
    let bogus_loc = RecordLocation { page: 1, slot: 0 };

    let err = get_record(&store, bogus_loc).unwrap_err();
    assert_eq!(err.kind(), ErrorKind::InvalidData);
}

// The catalog. Loading it again from the same pages is a reopen.

#[test]
fn fresh_file_gets_an_empty_catalog() {
    let mut store = MemoryStore::new();
    let catalog = Catalog::load(&mut store).unwrap();
    assert!(catalog.get("users").is_none());
}

#[test]
fn catalog_survives_reopen_once_populated() {
    let mut store = MemoryStore::new();
    let _catalog = Catalog::load(&mut store).unwrap();
    // Catalog page now exists, empty, but present.
    let catalog = Catalog::load(&mut store).unwrap();
    assert!(catalog.get("users").is_none());
}

#[test]
fn created_collection_is_visible_immediately() {
    let mut store = MemoryStore::new();
    let mut catalog = Catalog::load(&mut store).unwrap();

    let meta = catalog.create_collection(&mut store, "users").unwrap();

    let found = catalog.get("users").expect("just created");
    assert_eq!(found.index_root, meta.index_root);
}

#[test]
fn created_collection_survives_reopen() {
    let mut store = MemoryStore::new();
    let mut catalog = Catalog::load(&mut store).unwrap();
    let index_root = catalog
        .create_collection(&mut store, "users")
        .unwrap()
        .index_root;

    let catalog = Catalog::load(&mut store).unwrap();
    let found = catalog.get("users").expect("should survive reopen");
    assert_eq!(found.index_root, index_root);
}

#[test]
fn overlong_collection_names_are_rejected() {
    let mut store = MemoryStore::new();
    let mut catalog = Catalog::load(&mut store).unwrap();

    let longest = "x".repeat(MAX_COLLECTION_NAME_LEN);
    catalog.create_collection(&mut store, &longest).unwrap();

    let too_long = "x".repeat(MAX_COLLECTION_NAME_LEN + 1);
    let Err(Error::Io(err)) = catalog.create_collection(&mut store, &too_long) else {
        panic!("an overlong name must be an I/O InvalidInput error");
    };
    assert_eq!(err.kind(), ErrorKind::InvalidInput);
    assert!(catalog.get(&too_long).is_none());
}

#[test]
fn current_data_page_survives_reopen() {
    let mut store = MemoryStore::new();
    let mut catalog = Catalog::load(&mut store).unwrap();
    catalog.create_collection(&mut store, "users").unwrap();
    catalog.create_collection(&mut store, "posts").unwrap();
    catalog
        .set_current_data_page(&mut store, "users", 42)
        .unwrap();
    assert_eq!(catalog.get("users").unwrap().current_data_page, 42);

    let catalog = Catalog::load(&mut store).unwrap();
    assert_eq!(catalog.get("users").unwrap().current_data_page, 42);
    assert_eq!(catalog.get("posts").unwrap().current_data_page, 0);
}

fn fields(names: &[&str]) -> Vec<String> {
    names.iter().map(|n| n.to_string()).collect()
}

const PLAIN: IndexOptions = IndexOptions {
    unique: false,
    sparse: false,
};
const UNIQUE: IndexOptions = IndexOptions {
    unique: true,
    sparse: false,
};
const SPARSE: IndexOptions = IndexOptions {
    unique: false,
    sparse: true,
};
const BOTH: IndexOptions = IndexOptions {
    unique: true,
    sparse: true,
};

#[test]
fn indexes_are_created_dropped_and_survive_reopen() {
    let mut store = MemoryStore::new();
    let mut catalog = Catalog::load(&mut store).unwrap();
    catalog.create_collection(&mut store, "users").unwrap();
    catalog.create_collection(&mut store, "posts").unwrap();
    let email = catalog
        .create_index(&mut store, "users", &fields(&["email"]), UNIQUE)
        .unwrap();
    let age = catalog
        .create_index(&mut store, "users", &fields(&["age"]), PLAIN)
        .unwrap();
    let tenant_email = catalog
        .create_index(&mut store, "users", &fields(&["tenant", "email"]), UNIQUE)
        .unwrap();
    let nick = catalog
        .create_index(&mut store, "users", &fields(&["nick"]), SPARSE)
        .unwrap();
    let phone = catalog
        .create_index(&mut store, "users", &fields(&["phone"]), BOTH)
        .unwrap();
    // Unique, so dropping them has to find both kinds of cell.
    catalog
        .create_index(&mut store, "posts", &fields(&["title"]), UNIQUE)
        .unwrap();
    catalog
        .create_index(&mut store, "posts", &fields(&["a", "b", "c"]), UNIQUE)
        .unwrap();
    assert_eq!(
        catalog.indexes("users"),
        [
            email.clone(),
            age.clone(),
            tenant_email.clone(),
            nick.clone(),
            phone.clone()
        ]
    );
    assert!(email.unique && !age.unique && tenant_email.unique);
    assert_eq!(nick.options(), SPARSE);
    assert_eq!(phone.options(), BOTH);
    assert!(!email.sparse && !tenant_email.sparse);
    assert_eq!(tenant_email.name(), "(tenant, email)");

    for dropped in [&["title"][..], &["a", "b", "c"]] {
        let index = catalog.drop_index(&mut store, "posts", &fields(dropped));
        assert_eq!(index.unwrap().map(|i| i.fields), Some(fields(dropped)));
        let again = catalog.drop_index(&mut store, "posts", &fields(dropped));
        assert_eq!(again.unwrap(), None);
    }
    // Still findable after an index cell came before it.
    catalog
        .set_current_data_page(&mut store, "posts", 7)
        .unwrap();

    let catalog = Catalog::load(&mut store).unwrap();
    assert_eq!(
        catalog.indexes("users"),
        [email, age, tenant_email, nick, phone]
    );
    assert_eq!(catalog.indexes("posts"), []);
    assert_eq!(catalog.indexes("nothing"), []);
    assert_eq!(catalog.get("posts").unwrap().current_data_page, 7);
}

#[test]
fn index_cells_carry_their_options_and_refuse_unknown_flags() {
    for (fields, options, kind) in [
        (fields(&["a"]), PLAIN, KIND_INDEX),
        (fields(&["a"]), UNIQUE, KIND_UNIQUE_INDEX),
        (fields(&["a"]), SPARSE, KIND_INDEX_WITH_FLAGS),
        (fields(&["a", "b"]), PLAIN, KIND_INDEX_WITH_FLAGS),
        (fields(&["a", "b"]), BOTH, KIND_INDEX_WITH_FLAGS),
    ] {
        let index = IndexMeta {
            fields,
            root: 9,
            unique: options.unique,
            sparse: options.sparse,
        };
        let cell = encode_index("users", &index);
        assert_eq!(cell[0], kind);
        let Entry::Index(collection, decoded) = decode_entry(&cell).unwrap() else {
            panic!("an index cell decodes as an index");
        };
        assert_eq!((collection.as_str(), decoded), ("users", index));
    }
    let index = IndexMeta {
        fields: fields(&["a"]),
        root: 9,
        unique: false,
        sparse: true,
    };
    let mut cell = encode_index("users", &index);
    cell[10 + "users".len()] |= 4;
    let Err(err) = decode_entry(&cell) else {
        panic!("unknown flags must be refused");
    };
    assert!(err.to_string().contains("unknown index flags 0x06"));
}

#[test]
fn a_catalog_chain_that_loops_is_an_error() {
    let mut store = MemoryStore::new();
    let mut catalog = Catalog::load(&mut store).unwrap();
    catalog.create_collection(&mut store, "users").unwrap();
    let mut page = SlottedPage::from_bytes(store.read_page(CATALOG_PAGE_ID).unwrap()).unwrap();
    page.set_next_page(CATALOG_PAGE_ID);
    store
        .write_page(CATALOG_PAGE_ID, &page.into_bytes())
        .unwrap();

    let Err(err) = Catalog::load(&mut store) else {
        panic!("a looping catalog loaded");
    };
    assert_eq!(err.kind(), ErrorKind::InvalidData);
    assert!(err.to_string().contains("comes twice"));
}

#[test]
fn truncated_catalog_cells_are_errors() {
    let meta = CollectionMeta {
        index_root: 3,
        current_data_page: 4,
    };
    let cells = [
        (encode_collection("users", &meta), COLLECTION_NAME_AT),
        (
            encode_index(
                "users",
                &IndexMeta {
                    fields: fields(&["a"]),
                    root: 9,
                    unique: false,
                    sparse: false,
                },
            ),
            10 + "users".len(),
        ),
        (
            encode_index(
                "users",
                &IndexMeta {
                    fields: fields(&["a", "b"]),
                    root: 9,
                    unique: true,
                    sparse: true,
                },
            ),
            10 + "users".len() + 2,
        ),
    ];
    for (cell, fixed) in cells {
        assert!(decode_entry(&cell).is_ok());
        for len in 0..cell.len() {
            match decode_entry(&cell[..len]) {
                Ok(_) => assert!(len >= fixed, "{len} of {cell:?} decoded"),
                Err(e) => assert_eq!(e.kind(), ErrorKind::InvalidData),
            }
        }
    }
}

#[test]
fn overlong_field_names_are_rejected() {
    let mut store = MemoryStore::new();
    let mut catalog = Catalog::load(&mut store).unwrap();
    let longest = "x".repeat(MAX_COLLECTION_NAME_LEN);
    catalog.create_collection(&mut store, &longest).unwrap();

    catalog
        .create_index(
            &mut store,
            &longest,
            &["f".repeat(MAX_FIELD_NAME_LEN)],
            PLAIN,
        )
        .unwrap();
    let too_long = "f".repeat(MAX_FIELD_NAME_LEN + 1);
    let Err(Error::Io(err)) = catalog.create_index(&mut store, &longest, &[too_long], PLAIN) else {
        panic!("an overlong field name must be an I/O InvalidInput error");
    };
    assert_eq!(err.kind(), ErrorKind::InvalidInput);
}

use trunkdb::bench::XorShift;
use trunkdb::document::{DocId, Document, Fields};
use trunkdb::durability::{
    Durability, NoopDurability, WalDurability, WAL_HEADER_LEN,
};
use trunkdb::error::ErrorKind;
use trunkdb::fuzzing::{apply_edits, seal, unseal, wal};
use trunkdb::index::branch::{decode_branch_entry, encode_branch_entry};
use trunkdb::index::btree::BTreeIndex;
use trunkdb::index::in_memory::InMemoryIndex;
use trunkdb::index::key::{
    compound, doc_id, encode_value, encode_values, is_exact, is_other, part_is_exact, parts,
    prefix_end, range_for, secondary, string_budget, value_part, KeyRange, MAX_COMPOUND_FIELDS,
    MAX_KEY_LEN, TAG_BOOL, TAG_NULL, TAG_NUMBER, TAG_STRING,
};
use trunkdb::index::leaf::{decode_index_entry, encode_index_entry};
use trunkdb::index::node::build_branch_page;
use trunkdb::index::Index;
use trunkdb::query::Op;
use trunkdb::storage::{
    MemoryStore, PageId, PageStore, PageType, RecordLocation, SlottedPage, PAGE_SIZE,
    USABLE_PAGE_SIZE,
};

fn float(f: f64) -> Document {
    Document::Float(f.to_bits())
}

fn text(s: &str) -> Document {
    Document::String(s.to_string())
}

fn key(value: Document) -> Vec<u8> {
    encode_value(&value).unwrap()
}

// Entries.

#[test]
fn encode_decode_branch_entry_roundtrips_any_child() {
    for child in [0, 1, u64::MAX] {
        let encoded = encode_branch_entry(b"k", child);
        assert_eq!(decode_branch_entry(&encoded), (&b"k"[..], child));
    }
}

#[test]
fn encode_decode_branch_entry() {
    for key in [&[1u8; 16][..], b"", b"a longer separator"] {
        let encoded = encode_branch_entry(key, 42);
        assert_eq!(decode_branch_entry(&encoded), (key, 42));
    }
}

#[test]
fn encode_decode_index_entry() {
    for key in [&[1u8; 16][..], b"", b"a longer, variable-length key"] {
        let location = RecordLocation { page: 42, slot: 7 };
        let encoded = encode_index_entry(key, location);
        assert_eq!(decode_index_entry(&encoded), (key, location));
    }
}

#[test]
fn insert_lookup_remove_roundtrip() {
    let mut idx = InMemoryIndex::default();
    let mut store = MemoryStore::new();
    let key = b"forty-two";
    let loc = RecordLocation { page: 1, slot: 0 };

    idx.insert(&mut store, key, loc).unwrap();
    assert_eq!(idx.lookup(&store, key).unwrap(), Some(loc));
    assert_eq!(idx.scan(&store).unwrap(), vec![(key.to_vec(), loc)]);

    idx.remove(&mut store, key).unwrap();
    assert_eq!(idx.lookup(&store, key).unwrap(), None);
}

// Keys.

#[test]
fn numbers_sort_numerically_across_int_and_float() {
    let values = [
        float(f64::NEG_INFINITY),
        Document::Int(-1_000_000),
        float(-2.5),
        Document::Int(-1),
        float(-0.0),
        Document::Int(0),
        float(0.5),
        Document::Int(1),
        float(1e300),
        float(f64::INFINITY),
    ];
    for pair in values.windows(2) {
        assert!(
            key(pair[0].clone()) <= key(pair[1].clone()),
            "{:?} vs {:?}",
            pair[0],
            pair[1]
        );
    }
    assert_eq!(key(float(-0.0)), key(Document::Int(0)));
    assert_eq!(key(float(3.0)), key(Document::Int(3)));
    assert_eq!(encode_value(&float(f64::NAN)), None);
}

#[test]
fn strings_sort_bytewise_and_are_prefix_free() {
    let values = ["", "\0", "\0\0", "a", "a\0", "a\0b", "ab", "abc", "b", "ß"];
    for pair in values.windows(2) {
        let (a, b) = (pair[0], pair[1]);
        assert!(a < b);
        // With ids that would reverse the order if the encoding
        // weren't prefix-free.
        let ka = secondary(&text(a), DocId([0xFF; 16])).unwrap();
        let kb = secondary(&text(b), DocId([0; 16])).unwrap();
        assert!(ka < kb, "{a:?} vs {b:?}");
    }
}

#[test]
fn long_strings_are_cut_but_keep_their_order() {
    let long = |tail: &str| Document::String("x".repeat(5000) + tail);
    let (a, b) = (key(long("a")), key(long("b")));
    assert_eq!(a, b, "they differ only past the cut");
    assert!(a.len() + 16 <= MAX_KEY_LEN);
    assert!(key(long("")) <= key(text("y")));
    // Zero bytes take two bytes each; the budget still holds.
    let zeros = key(Document::String("\0".repeat(5000)));
    assert!(zeros.len() + 16 <= MAX_KEY_LEN);
}

#[test]
fn compound_keys_sort_field_by_field_and_split_back() {
    let s = |v: &str| Document::String(v.into());
    let tuples = [
        (Document::Null, s("z")),
        (Document::Int(1), Document::Null),
        (Document::Int(1), Document::Int(-3)),
        (Document::Int(1), s("")),
        (Document::Int(1), s("a")),
        (Document::Int(1), Document::Array(vec![])),
        (Document::Int(2), Document::Bool(false)),
        (s("a"), Document::Int(0)),
        (s("a\0"), Document::Int(0)),
        (float(f64::NAN), Document::Int(0)),
    ];
    let key = |(a, b): &(Document, Document), id| compound(&[a, b], DocId([id; 16]));
    for pair in tuples.windows(2) {
        // With ids that would reverse the order if they mattered.
        assert!(key(&pair[0], 0xFF) < key(&pair[1], 0), "{pair:?}");
    }
    for tuple in &tuples {
        let k = key(tuple, 7);
        let parts = parts(value_part(&k));
        assert_eq!(parts.len(), 2, "{tuple:?}");
        assert_eq!(parts.concat(), value_part(&k));
    }
    // Values no single-field index holds sort last, and are one value.
    let array = key(&(Document::Array(vec![1.into()]), Document::Null), 0);
    let object = key(&(Document::Object(Fields::new()), Document::Null), 0);
    assert_eq!(value_part(&array), value_part(&object));
    assert!(is_other(parts(value_part(&array))[0]));
    assert!(!part_is_exact(parts(value_part(&array))[0], 2));
}

#[test]
fn compound_keys_share_the_budget() {
    for fields in 1..=MAX_COMPOUND_FIELDS {
        let long = Document::String("\0".repeat(3000));
        let values = vec![&long; fields];
        let k = compound(&values, DocId([1; 16]));
        assert!(k.len() <= MAX_KEY_LEN, "{fields} fields: {}", k.len());
        let parts = parts(value_part(&k));
        assert_eq!(parts.len(), fields);
        assert!(parts.iter().all(|p| !part_is_exact(p, fields)));
    }
    let short = Document::String("x".repeat(100));
    let k = compound(&[&short, &short], DocId([1; 16]));
    assert!(parts(value_part(&k)).iter().all(|p| part_is_exact(p, 2)));
}

#[test]
fn a_range_under_a_prefix_stays_within_it() {
    let prefix = encode_values(&[&Document::Int(1)]);
    let five = range_for(&Op::Gt, &Document::Int(5))
        .unwrap()
        .under(&prefix);
    let k = |a: i64, b: i64| compound(&[&a.into(), &b.into()], DocId([0; 16]));
    assert!(five.contains(&k(1, 6)) && five.contains(&k(1, 5)));
    assert!(!five.contains(&k(1, 4)) && !five.contains(&k(2, 6)) && !five.contains(&k(0, 9)));
    let everything = KeyRange::prefixed(&prefix);
    assert!(everything.contains(&k(1, i64::MIN)) && !everything.contains(&k(2, 0)));
}

#[test]
fn only_comparable_types_are_indexed() {
    assert!(encode_value(&Document::Bool(true)).is_some());
    assert_eq!(key(Document::Null), [TAG_NULL]);
    for value in [
        Document::Binary(vec![1]),
        Document::Array(vec![]),
        Document::Id(DocId([1; 16])),
    ] {
        assert_eq!(encode_value(&value), None, "{value:?}");
    }
}

#[test]
fn ranges_cover_what_the_filter_would_match() {
    let id = DocId([7; 16]);
    let k = |n: i64| secondary(&Document::Int(n), id).unwrap();
    let five = Document::Int(5);

    let eq = range_for(&Op::Eq, &five).unwrap();
    assert!(eq.contains(&k(5)) && !eq.contains(&k(4)) && !eq.contains(&k(6)));
    let gt = range_for(&Op::Gt, &five).unwrap();
    assert!(gt.contains(&k(6)) && gt.contains(&k(5)) && !gt.contains(&k(4)));
    let lt = range_for(&Op::Lt, &five).unwrap();
    assert!(lt.contains(&k(4)) && lt.contains(&k(5)) && !lt.contains(&k(6)));

    // A range stays within its type.
    let string = secondary(&text("a"), id).unwrap();
    let boolean = secondary(&Document::Bool(true), id).unwrap();
    assert!(!gt.contains(&string) && !lt.contains(&boolean));

    assert_eq!(range_for(&Op::Ne, &five), None);
    assert_eq!(range_for(&Op::Contains, &text("a")), None);

    // Null is a type of its own, with one value.
    let null = secondary(&Document::Null, id).unwrap();
    let eq_null = range_for(&Op::Eq, &Document::Null).unwrap();
    assert!(eq_null.contains(&null) && !eq_null.contains(&boolean));
    assert!(!lt.contains(&null) && !gt.contains(&null));
}

#[test]
fn only_big_numbers_and_cut_strings_are_inexact() {
    let exact = |value: Document| is_exact(&key(value));
    let big = 1i64 << 53;
    for value in [
        Document::Null,
        Document::Bool(true),
        Document::Int(0),
        Document::Int(big - 1),
        Document::Int(-(big - 1)),
        float(-0.5),
        float(1e15),
        Document::String("x".repeat(string_budget(1) - 2)),
        Document::String("\0".repeat(string_budget(1) / 2 - 1)),
    ] {
        assert!(exact(value.clone()), "{value:?}");
    }
    for value in [
        Document::Int(big),
        Document::Int(-big),
        Document::Int(i64::MAX),
        float(1e300),
        float(f64::NEG_INFINITY),
        Document::String("x".repeat(string_budget(1) - 1)),
        Document::String("x".repeat(5000)),
        Document::String("\0".repeat(5000)),
    ] {
        assert!(!exact(value.clone()), "{value:?}");
    }
    // And a cut string does share its key with a different one.
    let cut = |tail: &str| key(Document::String("x".repeat(string_budget(1)) + tail));
    assert_eq!(cut("a"), cut("b"));
}

#[test]
fn intersect_narrows_to_both() {
    let r = range_for(&Op::Gte, &Document::Int(10))
        .unwrap()
        .intersect(range_for(&Op::Lte, &Document::Int(20)).unwrap());
    let k = |n: i64| secondary(&Document::Int(n), DocId([0; 16])).unwrap();
    assert!(r.contains(&k(10)) && r.contains(&k(15)) && r.contains(&k(20)));
    assert!(!r.contains(&k(9)) && !r.contains(&k(21)));
}

#[test]
fn prefix_end_skips_trailing_ff() {
    assert_eq!(prefix_end(&[1, 2]), Some(vec![1, 3]));
    assert_eq!(prefix_end(&[1, 0xFF]), Some(vec![2]));
    assert_eq!(prefix_end(&[0xFF, 0xFF]), None);
}

#[test]
fn damaged_keys_get_cautious_answers() {
    let values = [
        text("with\0zero"),
        Document::Int(42),
        Document::Null,
        Document::Bool(true),
        Document::Array(vec![]),
    ];
    let refs: Vec<&Document> = values.iter().collect();
    let key = compound(&refs, DocId([7; 16]));
    let whole = value_part(&key);
    assert_eq!(parts(whole).len(), values.len());
    assert_eq!(doc_id(&key), DocId([7; 16]));
    for len in 0..key.len() {
        let cut = &key[..len];
        let _ = doc_id(cut);
        let value = value_part(cut);
        let split = parts(value);
        assert_eq!(split.concat(), value, "{len}: parts cover the bytes");
        for part in &split {
            let _ = is_other(part);
            let _ = part_is_exact(part, values.len());
        }
    }
    assert_eq!(
        doc_id(&[1, 2]),
        DocId([0, 0, 0, 0, 0, 0, 0, 0, 0, 0, 0, 0, 0, 0, 1, 2])
    );
    assert_eq!(value_part(&[1, 2]), &[] as &[u8]);
    assert!(!part_is_exact(&[], 1));
    assert!(!part_is_exact(&[TAG_NUMBER, 1, 2], 1), "a number cut short");
    assert!(
        !part_is_exact(&[TAG_STRING, b'a'], 1),
        "a string without its end"
    );
    for fields in 1..=8 {
        assert!(!part_is_exact(&[], fields));
        assert!(!part_is_exact(&[TAG_NUMBER, 1, 2], fields));
        assert!(!part_is_exact(&[TAG_BOOL], fields), "a bool cut short");
        assert!(!part_is_exact(&[TAG_STRING, b'a'], fields));
        assert!(
            !part_is_exact(&[TAG_STRING, b'w', b'i', b't', b'h'], fields),
            "a longer string without its end"
        );
        assert!(part_is_exact(&[TAG_STRING, b'w', 0, 0], fields));
        assert!(part_is_exact(&[TAG_BOOL, 1], fields));
        assert!(part_is_exact(&[TAG_NULL], fields));
    }
    assert!(!is_other(&[]));
    assert_eq!(parts(&[TAG_STRING, b'a', 0]), [&[TAG_STRING, b'a', 0][..]]);
}

// The tree.

fn fresh() -> (MemoryStore, BTreeIndex) {
    let mut store = MemoryStore::new();
    let root = store.allocate_page().unwrap();
    store
        .write_page(root, &SlottedPage::new(PageType::IndexLeaf).into_bytes())
        .unwrap();
    (store, BTreeIndex::new(root))
}

fn id_from(i: u16) -> [u8; 16] {
    // Big-endian so byte order matches numeric order.
    let mut bytes = [0u8; 16];
    bytes[0..2].copy_from_slice(&i.to_be_bytes());
    bytes
}

#[test]
fn insert_then_lookup_finds_it() {
    let (mut store, mut index) = fresh();
    let id = [7; 16];
    let loc = RecordLocation { page: 5, slot: 1 };
    index.insert(&mut store, &id, loc).unwrap();
    assert_eq!(index.lookup(&store, &id).unwrap(), Some(loc));
}

#[test]
fn lookup_missing_returns_none() {
    let (store, index) = fresh();
    assert_eq!(index.lookup(&store, &[9; 16]).unwrap(), None);
}

#[test]
fn remove_then_lookup_returns_none() {
    let (mut store, mut index) = fresh();
    let id = [3; 16];
    let loc = RecordLocation { page: 2, slot: 0 };
    index.insert(&mut store, &id, loc).unwrap();
    index.remove(&mut store, &id).unwrap();
    assert_eq!(index.lookup(&store, &id).unwrap(), None);
}

#[test]
fn rejects_overlong_keys() {
    let (mut store, mut index) = fresh();
    let loc = RecordLocation { page: 1, slot: 0 };
    let err = index
        .insert(&mut store, &vec![0; MAX_KEY_LEN + 1], loc)
        .unwrap_err();
    assert_eq!(err.kind(), ErrorKind::InvalidInput);
    index
        .insert(&mut store, &vec![0; MAX_KEY_LEN], loc)
        .unwrap();
}

#[test]
fn insert_enough_entries_to_force_a_leaf_split() {
    let (mut store, mut index) = fresh();
    for i in 0..500u16 {
        let loc = RecordLocation { page: 100, slot: i };
        index.insert(&mut store, &id_from(i), loc).unwrap();
    }
    let root_page = SlottedPage::from_bytes(store.read_page(index.root).unwrap()).unwrap();
    assert_eq!(
        root_page.page_type(),
        PageType::IndexBranch,
        "500 entries must have split the root leaf into a branch"
    );
    for i in 0..500u16 {
        let expected = RecordLocation { page: 100, slot: i };
        assert_eq!(index.lookup(&store, &id_from(i)).unwrap(), Some(expected));
    }
}

#[test]
fn scan_after_many_inserts_is_sorted_and_complete() {
    let (mut store, mut index) = fresh();
    let mut order: Vec<u16> = (0..2000).collect();
    order.sort_by_key(|i| i.wrapping_mul(7919) % 2000); // cheap shuffle
    for &i in &order {
        let loc = RecordLocation { page: 1, slot: i };
        index.insert(&mut store, &id_from(i), loc).unwrap();
    }
    let keys: Vec<Vec<u8>> = index
        .scan(&store)
        .unwrap()
        .into_iter()
        .map(|(k, _)| k)
        .collect();
    let expected: Vec<Vec<u8>> = (0..2000).map(|i| id_from(i).to_vec()).collect();
    assert_eq!(keys, expected);
}

#[test]
fn remove_works_after_the_tree_has_multiple_leaves() {
    let (mut store, mut index) = fresh();
    for i in 0..500u16 {
        let loc = RecordLocation { page: 1, slot: i };
        index.insert(&mut store, &id_from(i), loc).unwrap();
    }
    index.remove(&mut store, &id_from(250)).unwrap();
    assert_eq!(index.lookup(&store, &id_from(250)).unwrap(), None);
    // Neighbors must be untouched.
    assert!(index.lookup(&store, &id_from(249)).unwrap().is_some());
    assert!(index.lookup(&store, &id_from(251)).unwrap().is_some());
}

#[test]
fn variable_length_keys_match_a_btreemap() {
    let (mut store, mut index) = fresh();
    let mut model = InMemoryIndex::default();
    let mut rng = XorShift(0x9E37_79B9_7F4A_7C15);
    let mut keys: Vec<Vec<u8>> = Vec::new();

    for round in 0..3000u16 {
        if !keys.is_empty() && rng.below(4) == 0 {
            let key = keys.swap_remove(rng.below(keys.len()));
            index.remove(&mut store, &key).unwrap();
            model.remove(&mut store, &key).unwrap();
            continue;
        }
        let len = match rng.below(3) {
            0 => rng.below(8),
            1 => rng.below(64),
            _ => MAX_KEY_LEN - rng.below(64),
        };
        // A small alphabet, so keys share long prefixes.
        let key: Vec<u8> = (0..len).map(|_| b"ab\0\xFF"[rng.below(4)]).collect();
        if keys.contains(&key) {
            continue;
        }
        let loc = RecordLocation {
            page: 1,
            slot: round,
        };
        index.insert(&mut store, &key, loc).unwrap();
        model.insert(&mut store, &key, loc).unwrap();
        keys.push(key);
    }

    assert_eq!(index.scan(&store).unwrap(), model.scan(&store).unwrap());
    for _ in 0..200 {
        let a = &keys[rng.below(keys.len())];
        let b = &keys[rng.below(keys.len())];
        let range = KeyRange {
            start: a.min(b).clone(),
            end: Some(a.max(b).clone()),
        };
        assert_eq!(
            index.range(&store, &range).unwrap(),
            model.range(&store, &range).unwrap()
        );
        let open_ended = KeyRange {
            start: a.clone(),
            end: None,
        };
        assert_eq!(
            index.range(&store, &open_ended).unwrap(),
            model.range(&store, &open_ended).unwrap()
        );
    }
    for key in &keys {
        assert_eq!(
            index.lookup(&store, key).unwrap(),
            model.lookup(&store, key).unwrap()
        );
    }
    let root_page = SlottedPage::from_bytes(store.read_page(index.root).unwrap()).unwrap();
    assert_eq!(root_page.page_type(), PageType::IndexBranch);
}

#[test]
fn free_all_returns_every_page() {
    let (mut store, mut index) = fresh();
    let high_water_before = store.allocate_page().unwrap();
    store.free_page(high_water_before).unwrap();
    for i in 0..2000u16 {
        let loc = RecordLocation { page: 1, slot: i };
        index.insert(&mut store, &id_from(i), loc).unwrap();
    }
    let high_water = store.allocate_page().unwrap();
    store.free_page(high_water).unwrap();

    index.free_all(&mut store).unwrap();

    // Every page from the root up is free again: reallocating them
    // all doesn't grow the file.
    let tree_pages = (high_water - high_water_before) as usize + 1;
    let mut again: Vec<PageId> = (0..=tree_pages)
        .map(|_| store.allocate_page().unwrap())
        .collect();
    again.sort();
    let mut expected: Vec<PageId> = (high_water_before..=high_water).collect();
    expected.push(index.root);
    expected.sort();
    assert_eq!(again, expected);
}

#[test]
fn a_tree_of_any_depth_gives_all_its_pages() {
    let (mut store, mut leaf) = fresh();
    let loc = RecordLocation { page: 7, slot: 3 };
    leaf.insert(&mut store, &id_from(5), loc).unwrap();
    let mut expected = vec![leaf.root];
    let mut root = leaf.root;
    for _ in 0..70 {
        let branch = store.allocate_page().unwrap();
        let page = build_branch_page(&Vec::new(), root).unwrap();
        store.write_page(branch, &page.into_bytes()).unwrap();
        expected.push(branch);
        root = branch;
    }
    let deep = BTreeIndex::new(root);
    let mut pages = deep.pages(&store).unwrap();
    pages.sort();
    expected.sort();
    assert_eq!(pages, expected);
    assert_eq!(deep.lookup(&store, &id_from(5)).unwrap(), Some(loc));
    assert_eq!(deep.lookup(&store, &id_from(6)).unwrap(), None);
}

#[test]
fn a_tree_that_comes_back_to_a_page_is_refused() {
    let mut store = MemoryStore::new();
    let root = store.allocate_page().unwrap();
    let below = store.allocate_page().unwrap();
    let page = build_branch_page(&Vec::new(), below).unwrap();
    store.write_page(root, &page.into_bytes()).unwrap();
    let page = build_branch_page(&Vec::new(), root).unwrap();
    store.write_page(below, &page.into_bytes()).unwrap();
    let ring = BTreeIndex::new(root);
    assert_eq!(ring.pages(&store).unwrap_err().kind(), ErrorKind::InvalidData);
}

#[test]
fn keys_from_the_key_module_work_as_is() {
    let (mut store, mut index) = fresh();
    for (n, id) in [(3, 1), (1, 2), (2, 3), (2, 4)] {
        let k = secondary(&Document::Int(n), DocId([id; 16])).unwrap();
        let loc = RecordLocation {
            page: n as u64,
            slot: id as u16,
        };
        index.insert(&mut store, &k, loc).unwrap();
    }
    let range = range_for(&Op::Eq, &Document::Int(2)).unwrap();
    let slots: Vec<u16> = index
        .range(&store, &range)
        .unwrap()
        .into_iter()
        .map(|(_, loc)| loc.slot)
        .collect();
    assert_eq!(slots, vec![3, 4]);
}

// The log.

type PageImages = Vec<(PageId, Vec<u8>)>;

fn page(fill: u8) -> Vec<u8> {
    vec![fill; USABLE_PAGE_SIZE]
}

fn open_log(bytes: Vec<u8>) -> (WalDurability, PageImages) {
    WalDurability::open(USABLE_PAGE_SIZE, bytes).unwrap()
}

fn log(wal: &mut WalDurability, pages: &[(PageId, Vec<u8>)]) {
    let borrowed: Vec<(PageId, &[u8])> = pages.iter().map(|(id, p)| (*id, p.as_slice())).collect();
    wal.log(&borrowed).unwrap();
}

fn two_page_batch() -> PageImages {
    vec![(3, page(1)), (7, page(2))]
}

#[test]
fn log_then_open_recovers_pending_pages() {
    let (mut wal, pending) = open_log(vec![]);
    assert!(pending.is_empty(), "fresh database has nothing pending");
    log(&mut wal, &two_page_batch());

    let (_wal, recovered) = open_log(wal.bytes);
    assert_eq!(recovered, two_page_batch());
}

#[test]
fn several_batches_are_recovered_in_log_order() {
    let (mut wal, _) = open_log(vec![]);
    log(&mut wal, &[(3, page(1))]);
    log(&mut wal, &[(3, page(9)), (4, page(4))]); // e.g. a checkpoint that failed in between

    let (_wal, recovered) = open_log(wal.bytes);
    assert_eq!(recovered, vec![(3, page(1)), (3, page(9)), (4, page(4))]);
}

#[test]
fn checkpoint_clears_pending_pages_and_the_next_log_starts_fresh() {
    let (mut wal, _) = open_log(vec![]);
    log(&mut wal, &two_page_batch());
    wal.checkpoint().unwrap();
    assert!(wal.bytes.is_empty());
    log(&mut wal, &[(5, page(5))]);

    let (_wal, recovered) = open_log(wal.bytes);
    assert_eq!(
        recovered,
        vec![(5, page(5))],
        "header rewritten after the checkpoint"
    );
}

#[test]
fn logging_nothing_writes_nothing() {
    let (mut wal, _) = open_log(vec![]);
    wal.log(&[]).unwrap();
    assert!(wal.bytes.is_empty());
}

#[test]
fn a_batch_torn_between_its_pages_recovers_none_of_them() {
    let (mut wal, _) = open_log(vec![]);
    log(&mut wal, &two_page_batch());

    let bytes = wal.bytes;
    let (_wal, recovered) = open_log(bytes[..bytes.len() - PAGE_SIZE / 2].to_vec());
    assert!(recovered.is_empty(), "got a partial batch");
}

#[test]
fn a_length_complete_tail_with_a_bad_checksum_is_ignored() {
    let (mut wal, _) = open_log(vec![]);
    log(&mut wal, &two_page_batch());

    let mut bytes = wal.bytes;
    let len = bytes.len();
    bytes[len - 4..].iter_mut().for_each(|b| *b ^= 0xFF);
    let (_wal, recovered) = open_log(bytes);
    assert!(recovered.is_empty());
}

#[test]
fn a_bad_checksum_before_the_tail_is_an_error() {
    let (mut wal, _) = open_log(vec![]);
    log(&mut wal, &two_page_batch());
    log(&mut wal, &two_page_batch());

    let mut bytes = wal.bytes;
    bytes[WAL_HEADER_LEN + 8] ^= 0xFF; // first byte of the first record's body
    let err = WalDurability::open(USABLE_PAGE_SIZE, bytes)
        .err()
        .expect("must not recover");
    assert_eq!(err.kind(), ErrorKind::InvalidData);
}

#[test]
fn a_file_without_the_magic_is_an_error() {
    let err = WalDurability::open(USABLE_PAGE_SIZE, vec![42u8; 64])
        .err()
        .expect("must not recover");
    assert_eq!(err.kind(), ErrorKind::InvalidData);
}

#[test]
fn a_file_shorter_than_its_header_is_a_torn_first_write() {
    let header = trunkdb::durability::encode_header();
    let (_wal, recovered) = open_log(header[..5].to_vec());
    assert!(recovered.is_empty());
}

#[test]
fn no_durability_keeps_nothing() {
    let mut none = NoopDurability;
    none.log(&[]).unwrap();
    none.checkpoint().unwrap();
}

// Sealed files.

#[test]
fn sealed_pages_unseal_to_themselves() {
    let pages: Vec<u8> = (0..USABLE_PAGE_SIZE * 2 + 5).map(|i| i as u8).collect();
    let file = seal(&pages);
    assert_eq!(file.len(), 3 * PAGE_SIZE);
    let back = unseal(&file);
    assert_eq!(back.len(), 3 * USABLE_PAGE_SIZE);
    assert_eq!(&back[..pages.len()], &pages[..]);
    assert!(back[pages.len()..].iter().all(|b| *b == 0));
    // The same page elsewhere has another checksum.
    let twice = seal(&vec![7; 2 * USABLE_PAGE_SIZE]);
    assert_ne!(
        twice[USABLE_PAGE_SIZE..PAGE_SIZE],
        twice[PAGE_SIZE + USABLE_PAGE_SIZE..]
    );
}

#[test]
fn a_made_up_log_is_recovered() {
    let (_wal, recovered) = open_log(wal(&two_page_batch()));
    assert_eq!(recovered, two_page_batch());
}

#[test]
fn edits_wrap_into_range_and_name_each_page_once() {
    let mut pages = vec![0; 2 * USABLE_PAGE_SIZE];
    // Page 3 wraps to 1; offset 8188 wraps to 0. Two bytes are left over.
    let edits = [3, 0xFC, 0x1F, 9, 1, 1, 0, 8, 0, 2, 0, 7, 5, 5];
    let changed = apply_edits(&mut pages, &edits);
    assert_eq!(changed, vec![1, 0]);
    assert_eq!(pages[USABLE_PAGE_SIZE], 9);
    assert_eq!(pages[USABLE_PAGE_SIZE + 1], 8);
    assert_eq!(pages[2], 7);
}

#[test]
fn tasks_are_made_by_number() {
    let task = trunkdb::bench::task(7, 100);
    assert_eq!(task.status, "Running");
    assert_eq!(task.created, 33);
    assert_eq!(task.tenant, "t17");
    assert_eq!(
        task.title,
        "Task 7: lorem ipsum lorem ipsum lorem ipsum lorem ipsum "
    );
    assert_eq!((task.tries, task.tags), (7, vec!["tag7".to_string()]));
}

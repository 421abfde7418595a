use trunkdb::base64::{base64_decode, base64_encode};
use trunkdb::bench::XorShift;
use trunkdb::crc32::{bitwise, crc32, tables, update_table, Crc32, POLYNOMIAL};
use trunkdb::decode::{take, take_u32};
use trunkdb::document::{DocId, Document, Fields, MAX_NESTING};
use trunkdb::encoding::{decode_document, encode_document};
use trunkdb::error::ErrorKind;
use trunkdb::id::{IdGenerator, UuidV7Generator};
use trunkdb::lines::parse_json;
use trunkdb::json::{document_line, from_json, parse_document_line, to_json, Json};

fn float(f: f64) -> Document {
    Document::Float(f.to_bits())
}

fn text(s: &str) -> Document {
    Document::String(s.to_string())
}

fn object(fields: &[(&str, Document)]) -> Document {
    let mut map = Fields::new();
    for (name, value) in fields {
        map.insert(name.to_string(), value.clone());
    }
    Document::Object(map)
}

/// A library value as the JSON crate has it.
fn to_value(json: &Json) -> serde_json::Value {
    match json {
        Json::Null => serde_json::Value::Null,
        Json::Bool(b) => serde_json::Value::from(*b),
        Json::Int(n) => serde_json::Value::from(*n),
        Json::UInt(n) => serde_json::Value::from(*n),
        Json::Float(bits) => serde_json::Value::from(f64::from_bits(*bits)),
        Json::String(s) => serde_json::Value::from(s.clone()),
        Json::Array(list) => serde_json::Value::Array(list.iter().map(to_value).collect()),
        Json::Object(entries) => {
            let mut map = serde_json::Map::new();
            for (name, value) in entries {
                map.insert(name.clone(), to_value(value));
            }
            serde_json::Value::Object(map)
        }
    }
}

fn parse(text: &str) -> Json {
    parse_json(text).unwrap()
}

fn print(json: &Json) -> String {
    serde_json::to_string(&to_value(json)).unwrap()
}

/// `==` on documents says `NaN != NaN`; compare encodings.
fn same(a: &Document, b: &Document) -> bool {
    encode_document(a) == encode_document(b)
}

fn through_text(doc: &Document) -> Document {
    from_json(&parse(&print(&to_json(doc)))).unwrap()
}

fn roundtrip(doc: Document) {
    let bytes = encode_document(&doc);
    let (decoded, rest) = decode_document(&bytes).unwrap();
    assert!(decoded == doc);
    assert!(rest.is_empty(), "decode must consume every encoded byte");
}

// Checksums.

#[test]
fn matches_the_standard_check_value() {
    assert_eq!(crc32(b"123456789"), 0xE306_9283);
    assert_eq!(crc32(b""), 0);
}

#[test]
fn matches_the_bitwise_definition() {
    let bytes: Vec<u8> = (0..300u32).map(|i| (i * 131 + 7) as u8).collect();
    let t = tables();
    for len in 0..=bytes.len() {
        let expected = bitwise(POLYNOMIAL, &bytes[..len]);
        assert_eq!(crc32(&bytes[..len]), expected, "{len} bytes");
        assert_eq!(!update_table(&t, !0, &bytes[..len]), expected, "{len} bytes");
    }
}

#[test]
fn pieces_give_the_same_crc_as_the_whole() {
    let bytes: Vec<u8> = (0..100u8).collect();
    for split in 0..=bytes.len() {
        let mut crc = Crc32::new();
        crc.update(&bytes[..split]);
        crc.update(&bytes[split..]);
        assert_eq!(crc.finish(), crc32(&bytes), "split at {split}");
    }
}

#[test]
fn crc32_matches_the_standard_check_value() {
    assert_eq!(trunkdb::durability::crc32(b"123456789"), 0xCBF4_3926);
}

// Taking bytes apart.

#[test]
fn take_moves_past_what_it_takes_and_refuses_what_is_not_there() {
    let mut bytes: &[u8] = &[1, 0, 0, 0, 9, 8];
    assert_eq!(take_u32(&mut bytes, "a count").unwrap(), 1);
    assert_eq!(take(&mut bytes, 1, "a byte").unwrap(), [9]);
    let err = take(&mut bytes, 2, "two bytes").unwrap_err();
    assert_eq!(err.kind(), ErrorKind::InvalidData);
    assert!(err.to_string().contains("two bytes needs 2 bytes, 1 left"));
    assert_eq!(bytes, [8], "a failed take moves nothing");
}

// Documents.

#[test]
fn scalars_roundtrip() {
    roundtrip(Document::Null);
    roundtrip(Document::Bool(true));
    roundtrip(Document::Bool(false));
    roundtrip(Document::Int(-42));
    roundtrip(float(3.5));
    roundtrip(text("hello"));
    roundtrip(Document::Binary(vec![1, 2, 3, 4]));
    roundtrip(Document::Id(DocId([7; 16])));
}

#[test]
fn array_roundtrips() {
    roundtrip(Document::Array(vec![
        Document::Int(1),
        text("two"),
        Document::Bool(false),
    ]));
}

#[test]
fn plain_values_convert_into_documents() {
    let id = DocId([7; 16]);
    let cases: Vec<(Document, Document)> = vec![
        (true.into(), Document::Bool(true)),
        ((-8i8).into(), Document::Int(-8)),
        (300i16.into(), Document::Int(300)),
        (5.into(), Document::Int(5)), // an unsuffixed literal is i32
        (i64::MIN.into(), Document::Int(i64::MIN)),
        (255u8.into(), Document::Int(255)),
        (u16::MAX.into(), Document::Int(65535)),
        (u32::MAX.into(), Document::Int(4_294_967_295)),
        ("text".into(), Document::String("text".into())),
        (
            String::from("owned").into(),
            Document::String("owned".into()),
        ),
        (id.into(), Document::Id(id)),
        (Some("x").into(), Document::String("x".into())),
        (None::<i64>.into(), Document::Null),
        (Some(None::<bool>).into(), Document::Null),
    ];
    for (converted, expected) in cases {
        assert!(converted == expected);
    }
}

#[test]
fn nested_object_with_id_roundtrips() {
    roundtrip(object(&[
        ("_id", Document::Id(DocId([1; 16]))),
        ("name", text("Ada")),
        ("tags", Document::Array(vec![text("admin")])),
    ]));
}

#[test]
fn lengths_past_u16_roundtrip() {
    roundtrip(Document::String("x".repeat(70_000)));
    roundtrip(Document::Binary(vec![9; 70_000]));
    roundtrip(Document::Array(vec![Document::Null; 70_000]));
    let mut entries = Fields::new();
    entries.insert("k".repeat(70_000), Document::Int(1));
    roundtrip(Document::Object(entries));
}

#[test]
fn decode_rejects_unknown_tag() {
    let bytes = [200u8]; // not a valid tag
    assert!(decode_document(&bytes).is_err());
}

#[test]
fn every_truncated_document_is_an_error() {
    let doc = object(&[
        ("n", Document::Int(7)),
        ("f", float(0.5)),
        ("b", Document::Bool(true)),
        ("s", text("text")),
        ("x", Document::Binary(vec![1, 2, 3])),
        ("i", Document::Id(DocId([9; 16]))),
        ("a", Document::Array(vec![Document::Null])),
    ]);
    let bytes = encode_document(&doc);
    for len in 0..bytes.len() {
        let err = decode_document(&bytes[..len]).unwrap_err();
        assert_eq!(err.kind(), ErrorKind::InvalidData, "{len}");
    }
    assert!(decode_document(&bytes).unwrap().0 == doc);
}

fn nested(levels: usize, leaf: Document) -> Document {
    (0..levels).fold(leaf, |inner, i| match i % 2 {
        0 => Document::Array(vec![inner]),
        _ => object(&[("x", inner)]),
    })
}

#[test]
fn a_document_past_the_nesting_limit_is_an_error_cut_short_anywhere() {
    let bytes = encode_document(&nested(MAX_NESTING + 40, text("leaf")));
    for len in 0..bytes.len() {
        let err = decode_document(&bytes[..len]).unwrap_err();
        assert_eq!(err.kind(), ErrorKind::InvalidData, "{len}");
    }
}

#[test]
fn documents_nest_at_most_64_levels() {
    let deepest = nested(MAX_NESTING, Document::Int(1));
    assert!(!deepest.nests_too_deep());
    let bytes = encode_document(&deepest);
    assert!(decode_document(&bytes).unwrap().0 == deepest);

    let too_deep = nested(MAX_NESTING + 1, Document::Int(1));
    assert!(too_deep.nests_too_deep());
    let encoded = encode_document(&too_deep);
    let err = decode_document(&encoded).unwrap_err();
    assert_eq!(err.kind(), ErrorKind::InvalidData);
    assert!(err.to_string().contains("deeper than 64"));
}

#[test]
fn tag_like_objects_count_twice() {
    let tagged = |inner: Document| object(&[("$id", inner)]);
    let half = (0..MAX_NESTING / 2).fold(Document::Null, |inner, _| tagged(inner));
    assert!(!half.nests_too_deep());
    assert!(tagged(half).nests_too_deep());
    let with_id = |inner: Document| object(&[("_id", Document::Null), ("$object", inner)]);
    // 31 tag-like levels around an array: 63. At the top, next to an
    // `_id`, one more tag-like object is two levels, so 65.
    let inner = (0..MAX_NESTING / 2 - 1).fold(Document::Array(vec![]), |inner, _| tagged(inner));
    assert!(!inner.nests_too_deep());
    assert!(
        with_id(inner).nests_too_deep(),
        "`_id` doesn't count as a field"
    );
}

#[test]
fn huge_counts_and_lengths_are_errors() {
    for tag in [6u8, 7, 4, 5] {
        let mut bytes = vec![tag];
        bytes.extend_from_slice(&u32::MAX.to_le_bytes());
        bytes.push(0);
        assert!(decode_document(&bytes).is_err(), "{tag}");
    }
}

#[test]
fn documents_are_equal_by_value() {
    assert!(float(0.0) == float(-0.0));
    assert!(float(f64::NAN) != float(f64::NAN));
    assert!(Document::Int(1) != float(1.0));
}

// JSON.

#[test]
fn every_kind_of_value_survives_text() {
    let id = DocId([7; 16]);
    let doc = object(&[
        ("null", Document::Null),
        ("bool", Document::Bool(true)),
        ("int", Document::Int(i64::MIN)),
        ("big", Document::Int((1 << 53) + 1)),
        ("float", float(3.0)),
        ("tiny", float(5e-324)),
        ("negzero", float(-0.0)),
        ("nan", float(f64::NAN)),
        ("inf", float(f64::INFINITY)),
        ("neginf", float(f64::NEG_INFINITY)),
        ("string", text("ß \"q\" \0 \u{1F600}")),
        ("binary", Document::Binary((0..=255).collect())),
        ("empty", Document::Binary(vec![])),
        ("id", Document::Id(id)),
        ("array", Document::Array(vec![Document::Int(1), float(1.0)])),
        // Objects that look like tags, at any depth.
        ("fake_id", object(&[("$id", text("x"))])),
        ("fake_object", object(&[("$object", Document::Int(1))])),
        ("mongo_date", object(&[("$date", Document::Int(0))])),
        ("zeta", Document::Null),
        ("alpha", Document::Null), // field order is kept, not sorted
    ]);
    let back = through_text(&doc);
    assert!(same(&back, &doc), "{back:?}");
}

#[test]
fn int_and_float_stay_apart() {
    assert!(through_text(&Document::Int(3)) == Document::Int(3));
    assert!(through_text(&float(3.0)) == float(3.0));
    assert!(through_text(&float(1e300)) == float(1e300));
    assert_eq!(print(&to_json(&float(3.0))), "3.0");
}

#[test]
fn floats_come_back_bit_for_bit() {
    let mut rng = XorShift(0xF10A7);
    for _ in 0..100_000 {
        rng.below(1);
        let f = f64::from_bits(rng.0);
        if f.is_finite() {
            let back = through_text(&float(f));
            assert!(back == float(f), "{f:e}");
        }
        rng.below(1);
        let g = rng.0 as f64 / (rng.below(1000) + 1) as f64;
        assert!(through_text(&float(g)) == float(g), "{g:e}");
    }
}

#[test]
fn plain_json_is_tagged_json() {
    let value = parse(r#"{"name":"Ada","age":36,"tags":["a"],"x":{"$date":1}}"#);
    let doc = from_json(&value).unwrap();
    let Document::Object(map) = &doc else {
        panic!()
    };
    assert!(*map.get("age").unwrap() == Document::Int(36));
    assert!(*map.get("x").unwrap() == object(&[("$date", Document::Int(1))]));
}

#[test]
fn bad_input_is_an_error_not_a_guess() {
    for text in [
        r#"18446744073709551615"#,
        r#"{"$id": "not-a-uuid"}"#,
        r#"{"$id": 5}"#,
        r#"{"$binary": "abc"}"#,
        r#"{"$binary": "a=bc"}"#,
        r#"{"$float": "nan"}"#,
        r#"{"$object": 1}"#,
        r#"{"$value": 1}"#,
    ] {
        assert!(from_json(&parse(text)).is_err(), "{text}");
    }
}

#[test]
fn document_lines_carry_the_id() {
    let id = DocId([9; 16]);
    let cases = [
        object(&[("a", Document::Int(1)), ("_id", Document::Id(id))]),
        object(&[("_id", Document::Id(id)), ("$value", Document::Int(1))]),
        object(&[("_id", Document::Id(id)), ("$object", Document::Int(1))]),
        object(&[("_id", Document::Id(id)), ("$id", Document::Int(1))]),
        object(&[("$float", Document::Int(1)), ("_id", Document::Id(id))]),
        object(&[("_id", Document::Id(id))]),
        Document::Int(5),
        Document::Array(vec![Document::Null]),
        Document::Id(DocId([1; 16])),
    ];
    for doc in cases {
        let text = print(&document_line(id, &doc));
        let (back_id, back) = parse_document_line(&parse(&text)).unwrap();
        assert_eq!(back_id, Some(id), "{text}");
        assert!(same(&back, &doc), "{text} -> {back:?}");
    }
}

#[test]
fn a_line_without_id_gets_none_and_a_bad_id_is_rejected() {
    let (id, doc) = parse_document_line(&parse(r#"{"a":1}"#)).unwrap();
    assert_eq!(id, None);
    assert!(doc == object(&[("a", Document::Int(1))]));
    for text in [r#"{"_id":"abc","a":1}"#, r#"[1]"#] {
        assert!(parse_document_line(&parse(text)).is_err());
    }
}

#[test]
fn base64_matches_rfc_4648() {
    for (plain, encoded) in [
        ("", ""),
        ("f", "Zg=="),
        ("fo", "Zm8="),
        ("foo", "Zm9v"),
        ("foob", "Zm9vYg=="),
        ("fooba", "Zm9vYmE="),
        ("foobar", "Zm9vYmFy"),
    ] {
        assert_eq!(base64_encode(plain.as_bytes()), encoded);
        assert_eq!(base64_decode(encoded).unwrap(), plain.as_bytes());
    }
    for bad in ["Zg=", "Z===", "Zg==Zg==", "Z!==", "Zm9v\n"] {
        assert_eq!(base64_decode(bad), None, "{bad}");
    }
}

// Ids.

#[test]
fn ids_print_and_read_as_uuids() {
    let id = DocId([
        0x01, 0x23, 0x45, 0x67, 0x89, 0xab, 0xcd, 0xef, 0xfe, 0xdc, 0xba, 0x98, 0x76, 0x54, 0x32,
        0x10,
    ]);
    let text = id.to_string();
    assert_eq!(text, "01234567-89ab-cdef-fedc-ba9876543210");
    assert_eq!(DocId::parse(&text), Some(id));
    assert_eq!(DocId::parse("0123456789abcdeffedcba9876543210"), Some(id));
    assert_eq!(
        DocId::parse("{01234567-89AB-CDEF-FEDC-BA9876543210}"),
        Some(id)
    );
    assert_eq!(DocId::parse("not-a-uuid"), None);
}

#[test]
fn new_ids_are_version_7_uuids() {
    let a = UuidV7Generator.generate();
    let b = UuidV7Generator.generate();
    assert_eq!(a.0[6] >> 4, 7);
    assert_ne!(a, b);
}

#[test]
fn fields_keep_their_order_and_replace_in_place() {
    let mut fields = Fields::new();
    fields.insert("b".to_string(), Document::Int(1));
    fields.insert("a".to_string(), Document::Int(2));
    fields.insert("b".to_string(), Document::Int(3));
    assert_eq!(fields.len(), 2);
    assert_eq!(fields.entry_at(0).0, "b");
    assert!(*fields.entry_at(0).1 == Document::Int(3));
    assert!(fields.get("c").is_none());
}

#[test]
fn bad_text_is_an_error() {
    // A string of one byte that is no text.
    let bytes = [4u8, 1, 0, 0, 0, 0xFF];
    assert_eq!(
        decode_document(&bytes).unwrap_err().kind(),
        ErrorKind::InvalidData
    );
}

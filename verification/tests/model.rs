use extract::pdf::{KeyName, ObjectKind, PdfDict, PdfDocument, PdfError, PdfObject, as_array, as_dict, as_reference};
use extract::text::{bool_to_text, chars_to_string, i64_text, join_strings};
use extract::rename::object_to_string;

fn key(s: &str) -> Vec<u8> {
    s.as_bytes().to_vec()
}

fn dict(entries: Vec<(&str, PdfObject)>) -> PdfDict {
    PdfDict { entries: entries.into_iter().map(|(k, v)| (key(k), v)).collect() }
}

fn doc(objects: Vec<((u32, u16), PdfObject)>) -> PdfDocument {
    PdfDocument { objects, trailer: dict(vec![]) }
}

#[test]
fn dict_get_finds_entry_and_reports_missing_key() {
    let d = dict(vec![("T", PdfObject::Integer(3)), ("V", PdfObject::Null)]);
    assert!(matches!(d.get(KeyName::T), Ok(PdfObject::Integer(3))));
    assert!(matches!(d.get(KeyName::Kids), Err(PdfError::DictKey(KeyName::Kids))));
}

#[test]
fn dereference_follows_chain_to_last_id() {
    let d = doc(vec![
        ((1, 0), PdfObject::Reference((2, 0))),
        ((2, 0), PdfObject::Integer(7)),
    ]);
    let start = PdfObject::Reference((1, 0));
    match d.dereference(&start) {
        Ok((Some(id), PdfObject::Integer(7))) => assert_eq!(id, (2, 0)),
        _ => panic!("chain not followed"),
    }
    let plain = PdfObject::Integer(5);
    assert!(matches!(d.dereference(&plain), Ok((None, PdfObject::Integer(5)))));
}

#[test]
fn dereference_reports_missing_object() {
    let d = doc(vec![((1, 0), PdfObject::Reference((9, 0)))]);
    let start = PdfObject::Reference((1, 0));
    assert!(matches!(d.dereference(&start), Err(PdfError::ObjectNotFound((9, 0)))));
}

#[test]
fn dereference_limit_is_128_references() {
    // object i refers to object i + 1; object 200 is an integer.
    let mut objects = Vec::new();
    for i in 0..200u32 {
        objects.push(((i, 0), PdfObject::Reference((i + 1, 0))));
    }
    objects.push(((200, 0), PdfObject::Integer(1)));
    let d = doc(objects);
    // Following 128 references, from object 73 to object 200, reaches the integer.
    assert!(matches!(d.dereference(&PdfObject::Reference((73, 0))), Ok((Some((200, 0)), PdfObject::Integer(1)))));
    // 129 references are too many.
    assert!(matches!(d.dereference(&PdfObject::Reference((72, 0))), Err(PdfError::ReferenceLimit)));
}

#[test]
fn dereference_of_cycle_hits_limit() {
    let d = doc(vec![((1, 0), PdfObject::Reference((1, 0)))]);
    assert!(matches!(d.dereference(&PdfObject::Reference((1, 0))), Err(PdfError::ReferenceLimit)));
}

#[test]
fn get_object_and_target() {
    let d = doc(vec![
        ((1, 0), PdfObject::Reference((2, 0))),
        ((2, 0), PdfObject::Dictionary(dict(vec![]))),
    ]);
    assert!(matches!(d.get_object((1, 0)), Ok(PdfObject::Dictionary(_))));
    assert_eq!(d.get_object_target((1, 0)).unwrap(), (2, 0));
    assert_eq!(d.get_object_target((2, 0)).unwrap(), (2, 0));
    assert!(matches!(d.get_object((3, 0)), Err(PdfError::ObjectNotFound((3, 0)))));
}

#[test]
fn catalog_through_root() {
    let mut d = doc(vec![((1, 0), PdfObject::Dictionary(dict(vec![("AcroForm", PdfObject::Null)])))]);
    assert!(matches!(d.catalog(), Err(PdfError::DictKey(KeyName::Root))));
    d.trailer = dict(vec![("Root", PdfObject::Integer(1))]);
    assert!(matches!(
        d.catalog(),
        Err(PdfError::ObjectType { expected: ObjectKind::Reference, found: ObjectKind::Integer })
    ));
    d.trailer = dict(vec![("Root", PdfObject::Reference((1, 0)))]);
    assert_eq!(d.catalog().unwrap().entries.len(), 1);
}

#[test]
fn accessors_report_type_errors() {
    let n = PdfObject::Name(key("X"));
    assert!(matches!(as_dict(&n), Err(PdfError::ObjectType { expected: ObjectKind::Dictionary, found: ObjectKind::Name })));
    assert!(matches!(as_array(&n), Err(PdfError::ObjectType { expected: ObjectKind::Array, found: ObjectKind::Name })));
    assert!(matches!(as_reference(&PdfObject::Stream), Err(PdfError::ObjectType { expected: ObjectKind::Reference, found: ObjectKind::Stream })));
    assert_eq!(as_reference(&PdfObject::Reference((4, 1))).unwrap(), (4, 1));
}

#[test]
fn integers_in_decimal() {
    assert_eq!(i64_text(0), "0");
    assert_eq!(i64_text(7), "7");
    assert_eq!(i64_text(1234567890), "1234567890");
    assert_eq!(i64_text(-42), "-42");
    assert_eq!(i64_text(i64::MIN), "-9223372036854775808");
    assert_eq!(i64_text(i64::MAX), "9223372036854775807");
    for n in [-1000i64, -1, 10, 99, 100, 65535] {
        assert_eq!(i64_text(n), n.to_string());
    }
}

#[test]
fn booleans_and_joins() {
    assert_eq!(bool_to_text(true), "true");
    assert_eq!(bool_to_text(false), "false");
    let parts = vec!["a".to_string(), "b".to_string(), "c".to_string()];
    assert_eq!(join_strings(&parts, ", "), "a, b, c");
    assert_eq!(join_strings(&vec![], ", "), "");
    assert_eq!(join_strings(&vec!["x".to_string()], ", "), "x");
    assert_eq!(chars_to_string(&vec!['h', 'é']), "hé");
}

#[test]
fn strings_are_read_as_utf8_with_replacement() {
    let d = doc(vec![]);
    assert_eq!(object_to_string(&d, &PdfObject::Str(b"abc".to_vec())).unwrap(), "abc");
    assert_eq!(object_to_string(&d, &PdfObject::Str(vec![0x61, 0xFF, 0x62])).unwrap(), "a\u{FFFD}b");
    assert_eq!(object_to_string(&d, &PdfObject::Name(vec![0xC3, 0xA9])).unwrap(), "\u{e9}");
}

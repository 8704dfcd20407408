use extract::listing::{collect_rects, list_form_fields, object_to_string as slashed, parse_fields_args, print_field};
use extract::pdf::{KeyName, ObjectKind, PdfDict, PdfDocument, PdfError, PdfObject};
use extract::rename::{
    FieldValue, default_output_path, renamed_output_from_parts, make_full_name, object_to_string as plain, parse_rename_args, rename_field,
    rename_form_fields,
};

fn key(s: &str) -> Vec<u8> {
    s.as_bytes().to_vec()
}

fn text(s: &str) -> PdfObject {
    PdfObject::Str(s.as_bytes().to_vec())
}

fn name(s: &str) -> PdfObject {
    PdfObject::Name(s.as_bytes().to_vec())
}

fn r(n: u32) -> PdfObject {
    PdfObject::Reference((n, 0))
}

fn dict(entries: Vec<(&str, PdfObject)>) -> PdfDict {
    PdfDict { entries: entries.into_iter().map(|(k, v)| (key(k), v)).collect() }
}

fn d(entries: Vec<(&str, PdfObject)>) -> PdfObject {
    PdfObject::Dictionary(dict(entries))
}

/// A form with a parent field `person` holding the text fields `name` and
/// `age`, and a button `ok`.
fn sample() -> PdfDocument {
    PdfDocument {
        objects: vec![
            ((1, 0), d(vec![("AcroForm", r(2))])),
            ((2, 0), d(vec![("Fields", PdfObject::Array(vec![r(3), r(6)]))])),
            ((3, 0), d(vec![("T", text("person")), ("Kids", PdfObject::Array(vec![r(4), r(5)]))])),
            (
                (4, 0),
                d(vec![
                    ("T", text("name")),
                    ("FT", name("Tx")),
                    (
                        "Rect",
                        PdfObject::Array(vec![
                            PdfObject::Integer(0),
                            PdfObject::Integer(0),
                            PdfObject::Real("10.5".to_string()),
                            PdfObject::Integer(20),
                        ]),
                    ),
                    ("V", text("Ann")),
                ]),
            ),
            ((5, 0), d(vec![("T", text("age")), ("FT", r(7))])),
            ((6, 0), d(vec![("T", text("ok")), ("FT", name("Btn"))])),
            ((7, 0), name("Tx")),
        ],
        trailer: dict(vec![("Root", r(1))]),
    }
}

fn values(v: &[FieldValue]) -> Vec<((u32, u16), String)> {
    v.iter().map(|f| (f.id, f.value.clone())).collect()
}

#[test]
fn full_names() {
    assert_eq!(make_full_name(Some("a".into()), Some("b".into())), "a.b");
    assert_eq!(make_full_name(Some("a".into()), None), "a");
    assert_eq!(make_full_name(None, Some("b".into())), "b");
    assert_eq!(make_full_name(None, None), "<unnamed>");
}

#[test]
fn default_output_paths() {
    assert_eq!(default_output_path("dir/form.pdf"), "dir/form_renamed.pdf");
    assert_eq!(default_output_path("form.pdf"), "form_renamed.pdf");
    assert_eq!(default_output_path("/a/b/c.x.pdf"), "/a/b/c.x_renamed.pdf");
    assert_eq!(default_output_path(""), "renamed_form_renamed.pdf");
}

#[test]
fn rename_args() {
    let a = |v: &[&str]| v.iter().map(|s| s.to_string()).collect::<Vec<String>>();
    assert_eq!(parse_rename_args(&a(&[])), None);
    assert_eq!(
        parse_rename_args(&a(&["in.pdf"])),
        Some(("in.pdf".to_string(), "in_renamed.pdf".to_string()))
    );
    assert_eq!(
        parse_rename_args(&a(&["in.pdf", "out.pdf", "extra"])),
        Some(("in.pdf".to_string(), "out.pdf".to_string()))
    );
}

#[test]
fn renames_text_fields_with_full_names() {
    let doc = sample();
    let v = rename_form_fields(&doc).unwrap();
    assert_eq!(
        values(&v),
        vec![((4, 0), "person.name".to_string()), ((5, 0), "person.age".to_string())]
    );
}

#[test]
fn renamed_values_go_to_the_object_a_reference_reaches() {
    let mut doc = sample();
    // The Fields array lists object 8, which refers on to the field 4.
    doc.objects[1].1 = d(vec![("Fields", PdfObject::Array(vec![r(8)]))]);
    doc.objects.push(((8, 0), r(4)));
    let v = rename_form_fields(&doc).unwrap();
    assert_eq!(values(&v), vec![((4, 0), "name".to_string())]);
}

#[test]
fn renaming_again_after_storing_gives_the_same_values() {
    let doc = sample();
    let first = rename_form_fields(&doc).unwrap();
    let mut stored = sample();
    for fv in &first {
        for (id, obj) in stored.objects.iter_mut() {
            if *id == fv.id {
                if let PdfObject::Dictionary(dct) = obj {
                    dct.entries.retain(|(k, _)| k.as_slice() != b"V");
                    dct.entries.push((key("V"), text(&fv.value)));
                }
            }
        }
    }
    let second = rename_form_fields(&stored).unwrap();
    assert_eq!(values(&first), values(&second));
}

#[test]
fn rename_errors() {
    let mut doc = sample();
    doc.objects[0].1 = d(vec![]);
    assert!(matches!(rename_form_fields(&doc), Err(PdfError::MissingAcroForm)));
    let mut doc = sample();
    doc.objects[1].1 = d(vec![]);
    assert!(matches!(rename_form_fields(&doc), Err(PdfError::MissingFields)));
    let mut doc = sample();
    doc.objects[1].1 = d(vec![("Fields", PdfObject::Array(vec![d(vec![])]))]);
    assert!(matches!(
        rename_form_fields(&doc),
        Err(PdfError::ObjectType { expected: ObjectKind::Reference, found: ObjectKind::Dictionary })
    ));
    let mut doc = sample();
    doc.objects[1].1 = d(vec![("Fields", PdfObject::Array(vec![r(4), r(99)]))]);
    assert!(matches!(rename_form_fields(&doc), Err(PdfError::ObjectNotFound((99, 0)))));
}

#[test]
fn rename_field_keeps_values_set_before_an_error() {
    let mut doc = sample();
    doc.objects[2].1 = d(vec![("T", text("p")), ("Kids", PdfObject::Array(vec![r(4), r(42)]))]);
    let mut out = Vec::new();
    let res = rename_field(&doc, &r(3), None, &mut out);
    assert!(matches!(res, Err(PdfError::ObjectNotFound((42, 0)))));
    assert_eq!(values(&out), vec![((4, 0), "p.name".to_string())]);
}

#[test]
fn rename_under_prefix_and_unnamed() {
    let mut doc = sample();
    doc.objects.push(((9, 0), d(vec![("FT", name("Tx"))])));
    let mut out = Vec::new();
    rename_field(&doc, &r(9), None, &mut out).unwrap();
    rename_field(&doc, &r(9), Some("top".to_string()), &mut out).unwrap();
    assert_eq!(values(&out), vec![((9, 0), "<unnamed>".to_string()), ((9, 0), "top".to_string())]);
}

#[test]
fn names_written_as_text() {
    let mut doc = sample();
    doc.objects.push(((10, 0), PdfObject::Array(vec![name("A"), r(7), PdfObject::Integer(-3)])));
    assert_eq!(plain(&doc, &r(10)).unwrap(), "A, Tx, -3");
    assert_eq!(slashed(&doc, &r(10)).unwrap(), "/A, /Tx, -3");
    assert_eq!(plain(&doc, &PdfObject::Null).unwrap(), "null");
    assert_eq!(plain(&doc, &PdfObject::Boolean(true)).unwrap(), "true");
    assert_eq!(plain(&doc, &PdfObject::Real("0.25".to_string())).unwrap(), "0.25");
    assert_eq!(plain(&doc, &r(4)).unwrap(), "<dictionary>");
    assert_eq!(plain(&doc, &PdfObject::Stream).unwrap(), "<stream>");
    assert_eq!(plain(&doc, &PdfObject::Array(vec![])).unwrap(), "");
    assert_eq!(plain(&doc, &PdfObject::Str(vec![0x68, 0xC3, 0xA9])).unwrap(), "hé");
    assert_eq!(plain(&doc, &PdfObject::Str(vec![0x68, 0xE9])).unwrap(), "h\u{FFFD}");
    assert!(matches!(plain(&doc, &PdfObject::Array(vec![r(50)])), Err(PdfError::ObjectNotFound((50, 0)))));
}

fn lines(out: &[String]) -> Vec<&str> {
    out.iter().map(|s| s.as_str()).collect()
}

#[test]
fn lists_fields_indented() {
    let doc = sample();
    let mut out = Vec::new();
    list_form_fields(&doc, "form.pdf", false, &mut out).unwrap();
    assert_eq!(
        lines(&out),
        vec!["Form fields for form.pdf:\n", "person = <empty>", "  name = Ann", "  age = <empty>", "ok = <empty>"]
    );
}

#[test]
fn lists_fields_with_rectangles() {
    let doc = sample();
    let mut out = Vec::new();
    list_form_fields(&doc, "form.pdf", true, &mut out).unwrap();
    assert_eq!(
        lines(&out),
        vec![
            "Form fields for form.pdf:\n",
            "person = <empty>",
            "  rect: 0, 0, 10.5, 20",
            "  name = Ann",
            "    rect: 0, 0, 10.5, 20",
            "  age = <empty>",
            "ok = <empty>",
        ]
    );
}

#[test]
fn listing_messages_for_missing_form() {
    let mut doc = sample();
    doc.objects[0].1 = d(vec![]);
    let mut out = Vec::new();
    list_form_fields(&doc, "x.pdf", false, &mut out).unwrap();
    assert_eq!(lines(&out), vec!["No AcroForm dictionary found in x.pdf"]);
    let mut doc = sample();
    doc.objects[1].1 = d(vec![]);
    let mut out = Vec::new();
    list_form_fields(&doc, "x.pdf", false, &mut out).unwrap();
    assert_eq!(lines(&out), vec!["No form fields found in x.pdf"]);
    let mut doc = sample();
    doc.objects[1].1 = d(vec![("Fields", PdfObject::Array(vec![]))]);
    let mut out = Vec::new();
    list_form_fields(&doc, "x.pdf", false, &mut out).unwrap();
    assert_eq!(lines(&out), vec!["No form fields found in x.pdf"]);
}

#[test]
fn listing_stops_at_error_keeping_printed_lines() {
    let mut doc = sample();
    doc.objects[5].1 = d(vec![("T", text("ok")), ("Rect", r(77))]);
    let mut out = Vec::new();
    let res = list_form_fields(&doc, "x.pdf", true, &mut out);
    assert!(matches!(res, Err(PdfError::ObjectNotFound((77, 0)))));
    assert_eq!(out.last().unwrap(), "ok = <empty>");
    let mut doc = sample();
    doc.trailer = dict(vec![]);
    let mut out = Vec::new();
    assert!(matches!(list_form_fields(&doc, "x.pdf", true, &mut out), Err(PdfError::DictKey(KeyName::Root))));
    assert!(out.is_empty());
}

#[test]
fn print_field_at_depth() {
    let doc = sample();
    let mut out = Vec::new();
    print_field(&doc, &r(4), 2, false, &mut out).unwrap();
    assert_eq!(lines(&out), vec!["    name = Ann"]);
}

#[test]
fn fields_args() {
    let a = |v: &[&str]| v.iter().map(|s| s.to_string()).collect::<Vec<String>>();
    assert_eq!(parse_fields_args(&a(&["f.pdf"])), Some((false, "f.pdf".to_string())));
    assert_eq!(parse_fields_args(&a(&["--bbox", "f.pdf"])), Some((true, "f.pdf".to_string())));
    assert_eq!(parse_fields_args(&a(&["f.pdf", "-b"])), Some((true, "f.pdf".to_string())));
    assert_eq!(parse_fields_args(&a(&["f.pdf", "g.pdf"])), None);
    assert_eq!(parse_fields_args(&a(&["-b"])), None);
    assert_eq!(parse_fields_args(&a(&[])), None);
}

#[test]
fn rectangles_of_a_field_and_its_kids() {
    let doc = sample();
    let parent = dict(vec![
        ("Rect", PdfObject::Array(vec![PdfObject::Integer(1), PdfObject::Integer(2)])),
        ("Kids", PdfObject::Array(vec![r(4), r(99), r(5)])),
    ]);
    assert_eq!(collect_rects(&doc, &parent).unwrap(), vec!["1, 2".to_string(), "0, 0, 10.5, 20".to_string()]);
    assert!(collect_rects(&doc, &dict(vec![])).unwrap().is_empty());
    let broken = dict(vec![("Rect", r(98))]);
    assert!(matches!(collect_rects(&doc, &broken), Err(PdfError::ObjectNotFound((98, 0)))));
}

#[test]
fn renamed_path_from_parts() {
    let o = |s: &str| Some(s.to_string());
    assert_eq!(renamed_output_from_parts(o("form"), o("dir")), "dir/form_renamed.pdf");
    assert_eq!(renamed_output_from_parts(o("form"), None), "form_renamed.pdf");
    assert_eq!(renamed_output_from_parts(None, o("")), "renamed_form_renamed.pdf");
    assert_eq!(renamed_output_from_parts(None, None), "renamed_form_renamed.pdf");
}

use extract::content::{
    ShownText, TextAction, decode_text, decoded_or_lossy, extract_bytes, plan_text_actions, shown_text, get_name, get_number as operand_number, parse_matrix, parse_two_numbers,
    text_operator, width_index,
};
use extract::fill::{
    FillArgsError, FillScan, PdfNumber, RectScan, encode_utf16be, field_page, filled_output_from_parts, filled_output_path, find_page, get_number,
    parse_fill_args, scan_fill_field,
};
use extract::pdf::{PdfDict, PdfDocument, PdfError, PdfObject};

fn key(s: &str) -> Vec<u8> {
    s.as_bytes().to_vec()
}

fn r(n: u32) -> PdfObject {
    PdfObject::Reference((n, 0))
}

fn dict(entries: Vec<(&str, PdfObject)>) -> PdfDict {
    PdfDict { entries: entries.into_iter().map(|(k, v)| (key(k), v)).collect() }
}

fn d(entries: Vec<(&str, PdfObject)>) -> PdfObject {
    PdfObject::Dictionary(dict(entries))
}

fn num(n: &PdfNumber) -> String {
    match n {
        PdfNumber::Integer(i) => format!("i{i}"),
        PdfNumber::Real(t) => format!("r{t}"),
    }
}

fn args(v: &[&str]) -> Vec<String> {
    v.iter().map(|s| s.to_string()).collect()
}

#[test]
fn utf16be_encoding() {
    assert_eq!(encode_utf16be(""), vec![0xFE, 0xFF]);
    assert_eq!(encode_utf16be("Ab"), vec![0xFE, 0xFF, 0x00, 0x41, 0x00, 0x62]);
    assert_eq!(encode_utf16be("é€"), vec![0xFE, 0xFF, 0x00, 0xE9, 0x20, 0xAC]);
    assert_eq!(encode_utf16be("😀"), vec![0xFE, 0xFF, 0xD8, 0x3D, 0xDE, 0x00]);
}

#[test]
fn utf16be_reads_back() {
    let s = "Grüße 😀 x";
    let bytes = encode_utf16be(s);
    let units: Vec<u16> = bytes[2..].chunks(2).map(|c| u16::from_be_bytes([c[0], c[1]])).collect();
    assert_eq!(String::from_utf16(&units).unwrap(), s);
    assert_eq!(lopdf::decode_text_string(&lopdf::Object::String(bytes, lopdf::StringFormat::Literal)).unwrap(), s);
}

#[test]
fn fill_numbers() {
    let doc = PdfDocument { objects: vec![((1, 0), PdfObject::Integer(5)), ((2, 0), r(1))], trailer: dict(vec![]) };
    assert_eq!(num(&get_number(&doc, &PdfObject::Integer(3)).unwrap()), "i3");
    assert_eq!(num(&get_number(&doc, &PdfObject::Real("1.5".into())).unwrap()), "r1.5");
    assert_eq!(num(&get_number(&doc, &r(2)).unwrap()), "i5");
    assert!(matches!(get_number(&doc, &PdfObject::Null), Err(PdfError::NotANumber)));
    assert!(matches!(get_number(&doc, &r(9)), Err(PdfError::ObjectNotFound((9, 0)))));
}

fn fill_doc() -> PdfDocument {
    PdfDocument {
        objects: vec![
            (
                (1, 0),
                d(vec![
                    ("T", PdfObject::Str(b"first".to_vec())),
                    (
                        "Rect",
                        PdfObject::Array(vec![
                            PdfObject::Integer(1),
                            PdfObject::Real("2.5".into()),
                            r(3),
                            PdfObject::Integer(4),
                        ]),
                    ),
                    ("P", r(4)),
                ]),
            ),
            ((2, 0), d(vec![("T", PdfObject::Name(b"n".to_vec()))])),
            ((3, 0), PdfObject::Integer(30)),
            ((4, 0), d(vec![("Type", PdfObject::Name(b"Page".to_vec()))])),
            ((5, 0), d(vec![("T", PdfObject::Str(b"bad".to_vec())), ("Rect", PdfObject::Array(vec![
                PdfObject::Integer(1), PdfObject::Null, PdfObject::Integer(1), PdfObject::Integer(1),
            ]))])),
            ((6, 0), d(vec![("T", PdfObject::Str(b"short".to_vec())), ("Rect", PdfObject::Array(vec![]))])),
        ],
        trailer: dict(vec![]),
    }
}

#[test]
fn scans_fields_for_filling() {
    let doc = fill_doc();
    let pages = vec![(1u32, (9u32, 0u16)), (2, (4, 0))];
    match scan_fill_field(&doc, &r(1), &pages).unwrap() {
        FillScan::Named { id, name, rect: RectScan::Found { numbers, page } } => {
            assert_eq!(id, (1, 0));
            assert_eq!(name, "first");
            assert_eq!(numbers.iter().map(num).collect::<Vec<_>>(), vec!["i1", "r2.5", "i30", "i4"]);
            // The field's `P` refers to object 4, which the page list numbers 2.
            assert_eq!(page, 2);
        },
        _ => panic!("field not found"),
    }
    assert!(matches!(scan_fill_field(&doc, &r(2), &pages), Ok(FillScan::Skip)));
    assert!(matches!(scan_fill_field(&doc, &r(3), &pages), Ok(FillScan::Skip)));
    assert!(matches!(scan_fill_field(&doc, &PdfObject::Null, &pages), Ok(FillScan::Skip)));
    assert!(matches!(scan_fill_field(&doc, &r(8), &pages), Err(PdfError::ObjectNotFound((8, 0)))));
    assert!(matches!(
        scan_fill_field(&doc, &r(5), &pages),
        Ok(FillScan::Named { rect: RectScan::Failed(PdfError::NotANumber), .. })
    ));
    assert!(matches!(scan_fill_field(&doc, &r(6), &pages), Ok(FillScan::Named { rect: RectScan::Missing, .. })));
}

#[test]
fn page_of_a_field_by_number() {
    let doc = PdfDocument {
        objects: vec![
            ((4, 0), d(vec![("Type", PdfObject::Name(b"Page".to_vec()))])),
            ((7, 0), r(4)),
        ],
        trailer: dict(vec![]),
    };
    let pages = vec![(1u32, (9u32, 0u16)), (2, (4, 0)), (3, (4, 0))];
    // Direct reference to a listed page: its number.
    assert_eq!(field_page(&doc, &dict(vec![("P", r(4))]), &pages), 2);
    // A chain of references: the last id followed is looked up.
    assert_eq!(field_page(&doc, &dict(vec![("P", r(7))]), &pages), 2);
    // No `P`, a `P` that is no reference, a missing object, a page not listed.
    assert_eq!(field_page(&doc, &dict(vec![]), &pages), 1);
    assert_eq!(field_page(&doc, &dict(vec![("P", PdfObject::Integer(2))]), &pages), 1);
    assert_eq!(field_page(&doc, &dict(vec![("P", r(8))]), &pages), 1);
    assert_eq!(field_page(&doc, &dict(vec![("P", r(4))]), &vec![(5, (9, 0))]), 1);
}

#[test]
fn fill_arguments() {
    assert!(matches!(parse_fill_args(&args(&["a.yaml"])), Err(FillArgsError::Usage)));
    assert!(matches!(parse_fill_args(&args(&[])), Err(FillArgsError::Usage)));
    let (y, p, o) = parse_fill_args(&args(&["a.yaml", "dir/form.pdf"])).unwrap();
    assert_eq!((y.as_str(), p.as_str(), o.as_str()), ("a.yaml", "dir/form.pdf", "dir/form_filled.pdf"));
    let (_, _, o) = parse_fill_args(&args(&["a.yaml", "form.pdf", "out.pdf"])).unwrap();
    assert_eq!(o, "out.pdf");
    assert!(matches!(parse_fill_args(&args(&["a.yaml", "form"])), Err(FillArgsError::NoOutputPath)));
    assert_eq!(filled_output_path("form.pdf").unwrap(), "form_filled.pdf");
    assert_eq!(filled_output_path("/x/y.z.pdf").unwrap(), "/x/y.z_filled.pdf");
    assert_eq!(filled_output_path("noext"), None);
}

#[test]
fn text_operators() {
    let op = |s: &str| s.to_string();
    assert_eq!(text_operator(false, &op("BT")), (true, TextAction::BeginText));
    assert_eq!(text_operator(true, &op("ET")), (false, TextAction::EndText));
    assert_eq!(text_operator(false, &op("ET")), (false, TextAction::EndText));
    assert_eq!(text_operator(false, &op("Tj")), (false, TextAction::Ignore));
    assert_eq!(text_operator(true, &op("Tj")), (true, TextAction::ShowText));
    assert_eq!(text_operator(true, &op("TJ")), (true, TextAction::ShowTextArray));
    assert_eq!(text_operator(true, &op("Tm")), (true, TextAction::SetMatrix));
    assert_eq!(text_operator(true, &op("Td")), (true, TextAction::MoveText));
    assert_eq!(text_operator(true, &op("TD")), (true, TextAction::MoveTextSetLeading));
    assert_eq!(text_operator(true, &op("T*")), (true, TextAction::NextLine));
    assert_eq!(text_operator(true, &op("Tf")), (true, TextAction::SetFont));
    assert_eq!(text_operator(true, &op("Tc")), (true, TextAction::SetCharSpace));
    assert_eq!(text_operator(true, &op("Tw")), (true, TextAction::SetWordSpace));
    assert_eq!(text_operator(true, &op("Th")), (true, TextAction::SetHorizontalScale));
    assert_eq!(text_operator(true, &op("TL")), (true, TextAction::SetLeading));
    assert_eq!(text_operator(true, &op("Ts")), (true, TextAction::SetRise));
    assert_eq!(text_operator(true, &op("re")), (true, TextAction::Ignore));
    assert_eq!(text_operator(false, &op("re")), (false, TextAction::Ignore));
}

#[test]
fn width_indices() {
    assert_eq!(width_index(65, 32, 100), Some(33));
    assert_eq!(width_index(32, 32, 1), Some(0));
    assert_eq!(width_index(31, 32, 100), None);
    assert_eq!(width_index(200, 32, 100), None);
    assert_eq!(width_index(0, -5, 10), Some(5));
}

#[test]
fn operands() {
    let doc = PdfDocument {
        objects: vec![((1, 0), PdfObject::Str(b"hi".to_vec())), ((2, 0), PdfObject::Name(b"F1".to_vec())), ((3, 0), PdfObject::Integer(12))],
        trailer: dict(vec![]),
    };
    assert_eq!(extract_bytes(&doc, &r(1)).unwrap(), &b"hi".to_vec());
    assert_eq!(extract_bytes(&doc, &r(2)), None);
    assert_eq!(get_name(&doc, &r(2)).unwrap(), &b"F1".to_vec());
    assert_eq!(get_name(&doc, &r(7)), None);
    assert_eq!(num(&operand_number(&doc, &r(3)).unwrap()), "i12");
    assert!(matches!(operand_number(&doc, &r(1)), Err(PdfError::NotANumber)));
    let six = || vec![
        PdfObject::Integer(1), PdfObject::Integer(0), PdfObject::Integer(0),
        PdfObject::Integer(1), PdfObject::Real("72.5".into()), r(3),
    ];
    let m = parse_matrix(&doc, &six()).unwrap();
    assert_eq!(m.iter().map(num).collect::<Vec<_>>(), vec!["i1", "i0", "i0", "i1", "r72.5", "i12"]);
    let mut bad = six();
    bad[2] = PdfObject::Null;
    assert!(parse_matrix(&doc, &bad).is_none());
    let mut five = six();
    five.pop();
    assert!(parse_matrix(&doc, &five).is_none());
    let two = parse_two_numbers(&doc, &vec![PdfObject::Integer(3), r(3), PdfObject::Null]).unwrap();
    assert_eq!((num(&two.0), num(&two.1)), ("i3".to_string(), "i12".to_string()));
    assert!(parse_two_numbers(&doc, &vec![PdfObject::Integer(3)]).is_none());
    assert!(parse_two_numbers(&doc, &vec![PdfObject::Integer(3), PdfObject::Null]).is_none());
}

#[test]
fn decodes_text_with_and_without_encoding() {
    assert_eq!(decode_text(None, b"abc"), "abc");
    assert_eq!(decode_text(None, &[0x80]), "\u{FFFD}");
    let win = lopdf::Encoding::SimpleEncoding(b"WinAnsiEncoding");
    assert_eq!(decode_text(Some(&win), &[0x80, 0x41]), "€A");
    let unknown = lopdf::Encoding::SimpleEncoding(b"NoSuchEncoding");
    assert_eq!(decode_text(Some(&unknown), b"plain"), "plain");
}

#[test]
fn decoded_text_or_lossy_fallback() {
    assert_eq!(decoded_or_lossy(Ok("decoded".to_string()), b"raw"), "decoded");
    assert_eq!(decoded_or_lossy(Err(lopdf::Error::CharacterEncoding), &[0x61, 0xFF]), "a\u{FFFD}");
}

#[test]
fn plan_of_text_operators() {
    let ops = args(&["Tf", "BT", "Tf", "Tj", "cm", "ET", "Tj", "BT", "TJ", "ET"]);
    let plan = plan_text_actions(&ops);
    assert_eq!(
        plan,
        vec![
            TextAction::Ignore,
            TextAction::BeginText,
            TextAction::SetFont,
            TextAction::ShowText,
            TextAction::Ignore,
            TextAction::EndText,
            TextAction::Ignore,
            TextAction::BeginText,
            TextAction::ShowTextArray,
            TextAction::EndText,
        ]
    );
    assert!(plan_text_actions(&vec![]).is_empty());
}

#[test]
fn text_operators_act_only_after_begin_text() {
    let ops = args(&["Tm", "Td", "BT", "Tm", "Td", "TD", "T*", "Tc", "Tw", "Th", "TL", "Ts", "ET", "Tj"]);
    let plan = plan_text_actions(&ops);
    for (i, a) in plan.iter().enumerate() {
        let acts = !matches!(a, TextAction::Ignore | TextAction::BeginText | TextAction::EndText);
        if acts {
            let last_bt = ops[..i].iter().rposition(|o| o == "BT");
            let j = last_bt.expect("a text operator acts only after BT");
            assert!(ops[j + 1..i].iter().all(|o| o != "ET"));
        }
    }
    assert_eq!(plan[0], TextAction::Ignore);
    assert_eq!(plan[3], TextAction::SetMatrix);
    assert_eq!(plan[13], TextAction::Ignore);
}

#[test]
fn pages_found_by_number() {
    assert_eq!(find_page(&vec![3, 1, 2, 1], 1), Some(1));
    assert_eq!(find_page(&vec![3, 1, 2], 3), Some(0));
    assert_eq!(find_page(&vec![3, 1, 2], 7), None);
    assert_eq!(find_page(&vec![], 1), None);
}

#[test]
fn what_a_text_operand_shows() {
    let doc = PdfDocument {
        objects: vec![
            ((1, 0), PdfObject::Str(b"hi".to_vec())),
            ((2, 0), PdfObject::Array(vec![PdfObject::Str(b"a".to_vec()), PdfObject::Integer(-250)])),
        ],
        trailer: dict(vec![]),
    };
    assert!(matches!(shown_text(&doc, &PdfObject::Str(b"x".to_vec())), ShownText::Bytes(b) if b == b"x"));
    assert!(matches!(shown_text(&doc, &r(1)), ShownText::Bytes(b) if b == b"hi"));
    assert!(matches!(shown_text(&doc, &r(2)), ShownText::Items(a) if a.len() == 2));
    assert!(matches!(shown_text(&doc, &PdfObject::Integer(3)), ShownText::Neither));
    assert!(matches!(shown_text(&doc, &r(9)), ShownText::Neither));
}

#[test]
fn filled_path_from_parts() {
    let o = |s: &str| Some(s.to_string());
    assert_eq!(filled_output_from_parts(o("form"), o("pdf"), o("dir")).unwrap(), "dir/form_filled.pdf");
    assert_eq!(filled_output_from_parts(o("form"), o("pdf"), None).unwrap(), "./form_filled.pdf");
    assert_eq!(filled_output_from_parts(None, o("pdf"), o("dir")), None);
    assert_eq!(filled_output_from_parts(o("form"), None, o("dir")), None);
}

fn scan_summary(s: FillScan) -> String {
    match s {
        FillScan::Skip => "skip".to_string(),
        FillScan::Named { id, name, rect } => {
            let r = match rect {
                RectScan::Missing => "missing".to_string(),
                RectScan::Failed(e) => format!("failed {e:?}"),
                RectScan::Found { numbers, page } => {
                    format!("{:?} page {page}", numbers.iter().map(num).collect::<Vec<_>>())
                },
            };
            format!("{id:?} {name} {r}")
        },
    }
}

#[test]
fn filling_again_scans_the_same() {
    let pages = vec![(1u32, (9u32, 0u16)), (2, (4, 0))];
    let before = fill_doc();
    let mut after = fill_doc();
    // Store a value in field 1, as the filler does.
    if let PdfObject::Dictionary(fd) = &mut after.objects[0].1 {
        fd.entries.push((key("V"), PdfObject::Str(encode_utf16be("x"))));
    }
    for f in [r(1), r(2), r(5), r(6)] {
        let a = scan_summary(scan_fill_field(&before, &f, &pages).unwrap());
        let b = scan_summary(scan_fill_field(&after, &f, &pages).unwrap());
        assert_eq!(a, b);
    }
    assert_eq!(
        scan_summary(scan_fill_field(&after, &r(1), &pages).unwrap()),
        "(1, 0) first [\"i1\", \"r2.5\", \"i30\", \"i4\"] page 2"
    );
}

#[test]
fn begin_text_starts_afresh() {
    let p = args(&["BT", "Tf", "Tj"]);
    let q = args(&["BT", "TJ", "ET", "Tc"]);
    let mut pq = p.clone();
    pq.extend(q.clone());
    let mut expected = plan_text_actions(&p);
    expected.extend(plan_text_actions(&q));
    assert_eq!(plan_text_actions(&pq), expected);
}

#[test]
fn operators_outside_text_can_be_dropped() {
    let ops = args(&["Tm", "BT", "Tj", "ET", "Tc", "ET", "BT", "Tj", "ET"]);
    let plan = plan_text_actions(&ops);
    for k in [0usize, 4, 5] {
        let mut fewer = ops.clone();
        fewer.remove(k);
        let mut expected = plan.clone();
        expected.remove(k);
        assert_eq!(plan_text_actions(&fewer), expected);
    }
    assert_eq!(plan[4], TextAction::Ignore);
    assert_eq!(plan[5], TextAction::EndText);
}

//! Filling form fields: which field a value goes to, and how the value is
//! written as a UTF-16BE PDF string.

use vstd::prelude::*;
use crate::paths::{extension, file_stem, join, opt_view, parent, path_extension, path_file_stem, path_join, path_parent};
use crate::pdf::{
    KeyName, ObjectId, PdfDict, PdfDocument, PdfError, PdfObject, as_array, catalog_spec, dict_get, key_bytes,
    object_spec, resolve, dereference, agree_except_values, same_except_value, lemma_deref_agree,
    lemma_object_spec_agree,
};
use crate::rename::{arg_views, form_fields};
use crate::text::{lossy_text, owned, utf8_lossy};

verus! {

/// The UTF-16 code units of a character: itself below U+10000, else a
/// surrogate pair.
pub open spec fn utf16_units(c: char) -> Seq<u16> {
    let v = c as u32;
    if v < 0x10000 {
        seq![v as u16]
    } else {
        let u = (v - 0x10000) as u32;
        seq![(0xD800 + u / 1024) as u16, (0xDC00 + u % 1024) as u16]
    }
}

/// The big-endian bytes of one code unit.
pub open spec fn unit_bytes(u: u16) -> Seq<u8> {
    seq![(u / 256) as u8, (u % 256) as u8]
}

/// The UTF-16 code units of a text.
pub open spec fn text_units(s: Seq<char>) -> Seq<u16>
    decreases s.len(),
{
    if s.len() == 0 {
        Seq::empty()
    } else {
        utf16_units(s[0]) + text_units(s.drop_first())
    }
}

/// The big-endian bytes of code units.
pub open spec fn units_bytes(us: Seq<u16>) -> Seq<u8>
    decreases us.len(),
{
    if us.len() == 0 {
        Seq::empty()
    } else {
        unit_bytes(us[0]) + units_bytes(us.drop_first())
    }
}

/// The UTF-16BE byte order mark.
pub open spec fn bom() -> Seq<u8> {
    seq![0xFEu8, 0xFF]
}

/// A text as a PDF text string: the UTF-16BE byte order mark, then the
/// text's UTF-16 code units, high byte first.
pub open spec fn utf16be(s: Seq<char>) -> Seq<u8> {
    bom() + units_bytes(text_units(s))
}

proof fn lemma_units_push(a: Seq<char>, c: char)
    ensures
        text_units(a.push(c)) == text_units(a) + utf16_units(c),
    decreases a.len(),
{
    if a.len() == 0 {
        assert(a.push(c).drop_first() =~= Seq::<char>::empty());
        assert(text_units(Seq::<char>::empty()) =~= Seq::<u16>::empty());
        assert(text_units(a) =~= Seq::<u16>::empty());
        assert(text_units(a.push(c)) =~= utf16_units(c) + Seq::<u16>::empty());
        assert(text_units(a.push(c)) =~= utf16_units(c));
    } else {
        assert(a.push(c).drop_first() =~= a.drop_first().push(c));
        lemma_units_push(a.drop_first(), c);
        assert(text_units(a.push(c)) =~= text_units(a) + utf16_units(c));
    }
}

proof fn lemma_bytes_concat(x: Seq<u16>, y: Seq<u16>)
    ensures
        units_bytes(x + y) == units_bytes(x) + units_bytes(y),
    decreases x.len(),
{
    if x.len() == 0 {
        assert(x + y =~= y);
        assert(units_bytes(x) + units_bytes(y) =~= units_bytes(y));
    } else {
        assert((x + y).drop_first() =~= x.drop_first() + y);
        lemma_bytes_concat(x.drop_first(), y);
        assert(units_bytes(x + y) =~= units_bytes(x) + units_bytes(y));
    }
}

/// Writes `text` as a PDF text string: the UTF-16BE byte order mark, then
/// each character's UTF-16 code units, high byte first.
pub fn encode_utf16be(text: &str) -> (r: Vec<u8>)
    ensures
        r@ == utf16be(text@),
{
    let mut out: Vec<u8> = vec![0xFEu8, 0xFF];
    let ghost chars = text@;
    assert(chars.take(0) =~= Seq::<char>::empty());
    assert(out@ =~= bom() + units_bytes(text_units(chars.take(0))));
    for ch in it: text.chars()
        invariant
            it.seq() == chars,
            out@ == bom() + units_bytes(text_units(chars.take(it.index() as int))),
    {
        let v: u32 = ch as u32;
        let ghost before = out@;
        if v < 0x10000 {
            let u: u16 = v as u16;
            out.push((u / 256) as u8);
            out.push((u % 256) as u8);
        } else {
            let w: u32 = v - 0x10000;
            let hi: u16 = (0xD800 + w / 1024) as u16;
            let lo: u16 = (0xDC00 + w % 1024) as u16;
            out.push((hi / 256) as u8);
            out.push((hi % 256) as u8);
            out.push((lo / 256) as u8);
            out.push((lo % 256) as u8);
        }
        proof {
            let i = it.index() as int;
            assert(chars.take(i + 1) =~= chars.take(i).push(chars[i]));
            lemma_units_push(chars.take(i), chars[i]);
            lemma_bytes_concat(text_units(chars.take(i)), utf16_units(ch));
            let us = utf16_units(ch);
            if us.len() == 1 {
                assert(units_bytes(us.drop_first()) =~= Seq::<u8>::empty());
                assert(units_bytes(us) =~= unit_bytes(us[0]));
            } else {
                assert(units_bytes(us.drop_first().drop_first()) =~= Seq::<u8>::empty());
                assert(units_bytes(us.drop_first()) =~= unit_bytes(us[1]));
                assert(units_bytes(us) =~= unit_bytes(us[0]) + unit_bytes(us[1]));
            }
            assert(out@ =~= before + units_bytes(us));
        }
    }
    assert(chars.take(chars.len() as int) =~= chars);
    out
}

/// Code units from big-endian byte pairs; a lone last byte is dropped.
pub open spec fn bytes_units(b: Seq<u8>) -> Seq<u16>
    decreases b.len(),
{
    if b.len() < 2 {
        Seq::empty()
    } else {
        seq![(b[0] * 256 + b[1]) as u16] + bytes_units(b.skip(2))
    }
}

/// Characters from UTF-16 code units: a high surrogate followed by a low
/// one makes one character above U+FFFF; any other surrogate is an error
/// (`None`); any other unit is its own character.
pub open spec fn decode_units(us: Seq<u16>) -> Option<Seq<char>>
    decreases us.len(),
{
    if us.len() == 0 {
        Some(Seq::empty())
    } else if 0xD800 <= us[0] < 0xDC00 {
        if us.len() >= 2 && 0xDC00 <= us[1] < 0xE000 {
            match decode_units(us.skip(2)) {
                Some(rest) => Some(seq![(0x10000 + (us[0] - 0xD800) * 1024 + (us[1] - 0xDC00)) as char] + rest),
                None => None,
            }
        } else {
            None
        }
    } else if 0xDC00 <= us[0] < 0xE000 {
        None
    } else {
        match decode_units(us.skip(1)) {
            Some(rest) => Some(seq![us[0] as char] + rest),
            None => None,
        }
    }
}

/// Reading a PDF text string with a UTF-16BE byte order mark back as text.
pub open spec fn decode_utf16be(b: Seq<u8>) -> Option<Seq<char>> {
    if b.len() >= 2 && b.take(2) == bom() {
        decode_units(bytes_units(b.skip(2)))
    } else {
        None
    }
}

proof fn lemma_bytes_units_inverse(us: Seq<u16>)
    ensures
        bytes_units(units_bytes(us)) == us,
    decreases us.len(),
{
    if us.len() > 0 {
        let b = units_bytes(us);
        lemma_bytes_units_inverse(us.drop_first());
        assert(b.skip(2) =~= units_bytes(us.drop_first()));
        let u = us[0];
        assert((u / 256) as u8 * 256 + (u % 256) as u8 == u);
        assert(bytes_units(b) =~= us);
    }
}

/// What every character is: a scalar value, never a surrogate.
proof fn lemma_char_range(c: char)
    ensures
        0 <= c as int <= 0x10FFFF,
        !(0xD800 <= (c as int) && (c as int) < 0xE000),
        (c as u32) as int == c as int,
{
}

proof fn lemma_decode_units(s: Seq<char>)
    ensures
        decode_units(text_units(s)) == Some(s),
    decreases s.len(),
{
    if s.len() > 0 {
        let c = s[0];
        let rest = s.drop_first();
        lemma_decode_units(rest);
        let us = text_units(s);
        lemma_char_range(c);
        let v = c as u32;
        if v < 0x10000 {
            assert(!(0xD800 <= (c as int) && (c as int) < 0xE000));
            assert(us.skip(1) =~= text_units(rest));
            assert(us[0] == v as u16);
            assert(us[0] as int == c as int);
            assert(us[0] as char == c);
            assert(decode_units(us) =~= Some(s));
        } else {
            let w = (v - 0x10000) as u32;
            assert(w < 0x100000);
            assert(us.skip(2) =~= text_units(rest));
            assert(0xD800 <= us[0] < 0xDC00);
            assert(0xDC00 <= us[1] < 0xE000);
            assert((us[0] - 0xD800) * 1024 + (us[1] - 0xDC00) == w) by {
                assert(us[0] - 0xD800 == w / 1024);
                assert(us[1] - 0xDC00 == w % 1024);
                assert((w / 1024) * 1024 + w % 1024 == w) by (nonlinear_arith);
            }
            assert(decode_units(us) =~= Some(s));
        }
    }
}

/// Reading back what `encode_utf16be` writes gives the text again: the
/// byte order mark, then the code units of every character, each surrogate
/// pair standing for the character above U+FFFF that it encodes.
pub proof fn lemma_utf16be_roundtrip(s: Seq<char>)
    ensures
        decode_utf16be(utf16be(s)) == Some(s),
{
    let b = utf16be(s);
    assert(b.take(2) =~= bom());
    assert(b.skip(2) =~= units_bytes(text_units(s)));
    lemma_bytes_units_inverse(text_units(s));
    lemma_decode_units(s);
}

/// A number read from a document: an integer, or a real held as its text.
pub enum PdfNumber {
    Integer(i64),
    Real(String),
}

/// The number that an object is, following one reference; `NotANumber`
/// for anything else.
pub open spec fn number_spec(doc: PdfDocument, obj: PdfObject) -> Result<PdfNumber, PdfError> {
    match obj {
        PdfObject::Integer(i) => Ok(PdfNumber::Integer(i)),
        PdfObject::Real(t) => Ok(PdfNumber::Real(t)),
        PdfObject::Reference(r) => match object_spec(doc, r) {
            Err(e) => Err(e),
            Ok(o) => match o {
                PdfObject::Integer(i) => Ok(PdfNumber::Integer(i)),
                PdfObject::Real(t) => Ok(PdfNumber::Real(t)),
                _ => Err(PdfError::NotANumber),
            },
        },
        _ => Err(PdfError::NotANumber),
    }
}

/// The number that an object is, if it is one.
fn plain_number(o: &PdfObject) -> (r: Option<PdfNumber>)
    ensures
        match *o {
            PdfObject::Integer(i) => r == Some(PdfNumber::Integer(i)),
            PdfObject::Real(t) => r == Some(PdfNumber::Real(t)),
            _ => r is None,
        },
{
    match o {
        PdfObject::Integer(i) => Some(PdfNumber::Integer(*i)),
        PdfObject::Real(t) => Some(PdfNumber::Real(t.clone())),
        _ => None,
    }
}

/// The number that an object is: an integer or a real, directly or through
/// the object a reference points to.
pub fn get_number(doc: &PdfDocument, obj: &PdfObject) -> (r: Result<PdfNumber, PdfError>)
    ensures
        r == number_spec(*doc, *obj),
{
    match obj {
        PdfObject::Reference(rid) => match doc.get_object(*rid) {
            Err(e) => Err(e),
            Ok(o) => match plain_number(o) {
                Some(n) => Ok(n),
                None => Err(PdfError::NotANumber),
            },
        },
        _ => match plain_number(obj) {
            Some(n) => Ok(n),
            None => Err(PdfError::NotANumber),
        },
    }
}

/// A dictionary entry with its references followed, when there is one and
/// following succeeds.
pub open spec fn entry_deref(doc: PdfDocument, d: PdfDict, key: KeyName) -> Option<PdfObject> {
    match dict_get(d, key_bytes(key)) {
        None => None,
        Some(o) => match resolve(doc, o) {
            Ok(x) => Some(x),
            Err(_) => None,
        },
    }
}

/// A dictionary entry with its references followed.
fn get_deref<'a>(doc: &'a PdfDocument, d: &'a PdfDict, key: KeyName) -> (r: Option<&'a PdfObject>)
    ensures
        match entry_deref(*doc, *d, key) {
            Some(o) => r matches Some(x) && *x == o,
            None => r is None,
        },
{
    match d.get(key) {
        Ok(o) => match doc.dereference(o) {
            Ok((_, x)) => Some(x),
            Err(_) => None,
        },
        Err(_) => None,
    }
}

/// The number of the first page whose id is `id`, else 1.
pub open spec fn page_number_in(pages: Seq<(u32, ObjectId)>, id: ObjectId) -> u32
    decreases pages.len(),
{
    if pages.len() == 0 {
        1
    } else if pages[0].1 == id {
        pages[0].0
    } else {
        page_number_in(pages.drop_first(), id)
    }
}

/// The page of a field: its `P` entry refers to the page object; the number
/// that the document's page list gives that object's id (the last
/// reference followed), or page 1 when there is no `P` reference, following
/// it fails, or the page list does not hold that id.
pub open spec fn page_spec(doc: PdfDocument, fd: PdfDict, pages: Seq<(u32, ObjectId)>) -> u32 {
    match dict_get(fd, key_bytes(KeyName::P)) {
        Some(p) => match dereference(doc, p) {
            Ok((Some(pid), _)) => page_number_in(pages, pid),
            _ => 1,
        },
        None => 1,
    }
}

/// The page of a field, from its `P` entry and the document's pages in
/// order.
pub fn field_page(doc: &PdfDocument, fd: &PdfDict, pages: &Vec<(u32, ObjectId)>) -> (r: u32)
    ensures
        r == page_spec(*doc, *fd, pages@),
{
    let p = match fd.get(KeyName::P) {
        Ok(p) => p,
        Err(_) => {
            return 1;
        },
    };
    match doc.dereference(p) {
        Ok((Some(pid), _)) => {
            let mut i: usize = 0;
            assert(pages@.skip(0) =~= pages@);
            while i < pages.len()
                invariant
                    0 <= i <= pages@.len(),
                    page_spec(*doc, *fd, pages@) == page_number_in(pages@, pid),
                    page_number_in(pages@, pid) == page_number_in(pages@.skip(i as int), pid),
                decreases pages@.len() - i,
            {
                let ghost rest = pages@.skip(i as int);
                assert(rest.drop_first() =~= pages@.skip(i + 1));
                let (num, id) = pages[i];
                if id.0 == pid.0 && id.1 == pid.1 {
                    return num;
                }
                i = i + 1;
            }
            assert(pages@.skip(i as int) =~= Seq::<(u32, ObjectId)>::empty());
            1
        },
        _ => 1,
    }
}

/// What came of a named field's rectangle.
pub enum RectScan {
    /// No `Rect` entry, or one that is no array of four items.
    Missing,
    /// An item of the rectangle is no number.
    Failed(PdfError),
    /// The four numbers of the rectangle, and the field's page.
    Found { numbers: Vec<PdfNumber>, page: u32 },
}

/// What the filler learns of a form field before matching it.
pub enum FillScan {
    /// Nothing to fill: the field is no reference to a dictionary, or has
    /// no name that is a string.
    Skip,
    /// A named field: the id the value goes to, its name, and its rectangle.
    Named { id: ObjectId, name: String, rect: RectScan },
}

/// What came of a named field's rectangle, as plain values.
pub enum RectView {
    Missing,
    Failed(PdfError),
    Found(Seq<PdfNumber>, u32),
}

/// What the filler learns of a form field, as plain values.
pub enum ScanView {
    Skip,
    Named(ObjectId, Seq<char>, RectView),
}

/// The plain values of a rectangle scan.
pub open spec fn rect_view(r: RectScan) -> RectView {
    match r {
        RectScan::Missing => RectView::Missing,
        RectScan::Failed(e) => RectView::Failed(e),
        RectScan::Found { numbers, page } => RectView::Found(numbers@, page),
    }
}

/// The plain values of a field scan.
pub open spec fn scan_view(s: FillScan) -> ScanView {
    match s {
        FillScan::Skip => ScanView::Skip,
        FillScan::Named { id, name, rect } => ScanView::Named(id, name@, rect_view(rect)),
    }
}

/// The numbers of the first `n` items, or the first item that is none.
pub open spec fn numbers_spec(doc: PdfDocument, items: Seq<PdfObject>) -> Result<Seq<PdfNumber>, PdfError>
    decreases items.len(),
{
    if items.len() == 0 {
        Ok(Seq::empty())
    } else {
        match number_spec(doc, items[0]) {
            Err(e) => Err(e),
            Ok(n) => match numbers_spec(doc, items.drop_first()) {
                Err(e) => Err(e),
                Ok(ns) => Ok(seq![n] + ns),
            },
        }
    }
}

/// A field's rectangle: its `Rect` entry followed, when that is an array of
/// four numbers, with the field's page.
pub open spec fn rect_spec(doc: PdfDocument, fd: PdfDict, pages: Seq<(u32, ObjectId)>) -> RectView {
    match entry_deref(doc, fd, KeyName::Rect) {
        Some(PdfObject::Array(a)) => if a@.len() == 4 {
            match numbers_spec(doc, a@) {
                Err(e) => RectView::Failed(e),
                Ok(ns) => RectView::Found(ns, page_spec(doc, fd, pages)),
            }
        } else {
            RectView::Missing
        },
        _ => RectView::Missing,
    }
}

/// What the filler learns of the field that `field_ref` refers to: an
/// error when the object is missing; nothing when it is no dictionary or
/// its `T` entry, followed, is no string; else its name read as UTF-8 and
/// its rectangle.
pub open spec fn scan_spec(doc: PdfDocument, field_ref: PdfObject, pages: Seq<(u32, ObjectId)>) -> Result<
    ScanView,
    PdfError,
> {
    match field_ref {
        PdfObject::Reference(fid) => match object_spec(doc, fid) {
            Err(e) => Err(e),
            Ok(PdfObject::Dictionary(fd)) => match entry_deref(doc, fd, KeyName::T) {
                Some(PdfObject::Str(b)) => Ok(ScanView::Named(fid, utf8_lossy(b@), rect_spec(doc, fd, pages))),
                _ => Ok(ScanView::Skip),
            },
            Ok(_) => Ok(ScanView::Skip),
        },
        _ => Ok(ScanView::Skip),
    }
}

/// The rectangle of a field.
fn scan_rect(doc: &PdfDocument, fd: &PdfDict, pages: &Vec<(u32, ObjectId)>) -> (r: RectScan)
    ensures
        rect_view(r) == rect_spec(*doc, *fd, pages@),
{
    let arr = match get_deref(doc, fd, KeyName::Rect) {
        Some(o) => match as_array(o) {
            Ok(a) => a,
            Err(_) => {
                return RectScan::Missing;
            },
        },
        None => {
            return RectScan::Missing;
        },
    };
    if arr.len() != 4 {
        return RectScan::Missing;
    }
    let mut numbers: Vec<PdfNumber> = Vec::new();
    let mut i: usize = 0;
    assert(arr@.skip(0) =~= arr@);
    while i < 4
        invariant
            0 <= i <= 4,
            arr@.len() == 4,
            rect_spec(*doc, *fd, pages@) == match numbers_spec(*doc, arr@) {
                Err(e) => RectView::Failed(e),
                Ok(ns) => RectView::Found(ns, page_spec(*doc, *fd, pages@)),
            },
            numbers_spec(*doc, arr@) == match numbers_spec(*doc, arr@.skip(i as int)) {
                Err(e) => Err(e),
                Ok(ns) => Ok::<Seq<PdfNumber>, PdfError>(numbers@ + ns),
            },
        decreases 4 - i,
    {
        let ghost rest = arr@.skip(i as int);
        assert(rest.drop_first() =~= arr@.skip(i + 1));
        match get_number(doc, &arr[i]) {
            Ok(n) => {
                let ghost before = numbers@;
                numbers.push(n);
                proof {
                    if let Ok(ns) = numbers_spec(*doc, arr@.skip(i + 1)) {
                        assert(before + (seq![n] + ns) =~= numbers@ + ns);
                    }
                }
            },
            Err(e) => {
                return RectScan::Failed(e);
            },
        }
        i = i + 1;
    }
    assert(arr@.skip(4) =~= Seq::<PdfObject>::empty());
    assert(numbers@ + Seq::<PdfNumber>::empty() =~= numbers@);
    let page = field_page(doc, fd, pages);
    RectScan::Found { numbers, page }
}

/// Reads the field that `field_ref` refers to as the filler does: fails
/// when the object is missing; skips it when it is no dictionary or has no
/// string name; else gives its id, its name and its rectangle.
pub fn scan_fill_field(doc: &PdfDocument, field_ref: &PdfObject, pages: &Vec<(u32, ObjectId)>) -> (r: Result<
    FillScan,
    PdfError,
>)
    ensures
        scan_spec(*doc, *field_ref, pages@) == match r {
            Ok(s) => Ok::<ScanView, PdfError>(scan_view(s)),
            Err(e) => Err(e),
        },
{
    match field_ref {
        PdfObject::Reference(fid) => {
            let fo = match doc.get_object(*fid) {
                Ok(o) => o,
                Err(e) => {
                    return Err(e);
                },
            };
            match fo {
                PdfObject::Dictionary(fd) => match get_deref(doc, fd, KeyName::T) {
                    Some(PdfObject::Str(b)) => {
                        let name = lossy_text(b.as_slice());
                        let rect = scan_rect(doc, fd, pages);
                        Ok(FillScan::Named { id: *fid, name, rect })
                    },
                    _ => Ok(FillScan::Skip),
                },
                _ => Ok(FillScan::Skip),
            }
        },
        _ => Ok(FillScan::Skip),
    }
}

/// The index of the first page, among pages with the numbers `numbers`,
/// whose number is `page`; none when no page has it.
pub fn find_page(numbers: &Vec<u32>, page: u32) -> (r: Option<usize>)
    ensures
        match r {
            Some(i) => i < numbers@.len() && numbers@[i as int] == page && forall|k: int|
                0 <= k < i ==> numbers@[k] != page,
            None => forall|k: int| 0 <= k < numbers@.len() ==> numbers@[k] != page,
        },
{
    let mut i: usize = 0;
    while i < numbers.len()
        invariant
            0 <= i <= numbers@.len(),
            forall|k: int| 0 <= k < i ==> numbers@[k] != page,
        decreases numbers@.len() - i,
    {
        if numbers[i] == page {
            return Some(i);
        }
        i = i + 1;
    }
    None
}

/// Why the filler's arguments do not give its paths.
#[derive(Clone, Copy, Debug)]
pub enum FillArgsError {
    /// The YAML path or the PDF path is missing.
    Usage,
    /// No output path is given and the PDF path has no stem or extension.
    NoOutputPath,
}

/// The path of the filled copy from the parts of the form's path: its stem,
/// `_filled.` and its extension, joined to its parent (or to `.`); none
/// when there is no stem or no extension.
pub open spec fn filled_from_parts(
    stem: Option<Seq<char>>,
    ext: Option<Seq<char>>,
    parent: Option<Seq<char>>,
) -> Option<Seq<char>> {
    match (stem, ext) {
        (Some(s), Some(e)) => Some(
            path_join(
                match parent {
                    Some(p) => p,
                    None => "."@,
                },
                s + "_filled."@ + e,
            ),
        ),
        _ => None,
    }
}

/// Where the filled copy of `pdf` goes when no output path is given: its
/// stem, `_filled.` and its extension, beside it (or in `.`); none when the
/// path has no stem or no extension.
pub open spec fn filled_output(pdf: Seq<char>) -> Option<Seq<char>> {
    filled_from_parts(path_file_stem(pdf), path_extension(pdf), path_parent(pdf))
}

/// The filler's YAML, PDF and output paths, from its arguments (the program
/// name left out).
pub open spec fn fill_paths(args: Seq<Seq<char>>) -> Result<(Seq<char>, Seq<char>, Seq<char>), FillArgsError> {
    if args.len() < 2 {
        Err(FillArgsError::Usage)
    } else if args.len() >= 3 {
        Ok((args[0], args[1], args[2]))
    } else {
        match filled_output(args[1]) {
            Some(o) => Ok((args[0], args[1], o)),
            None => Err(FillArgsError::NoOutputPath),
        }
    }
}

/// The path of the filled copy from the stem, the extension and the parent
/// of the form's path.
pub fn filled_output_from_parts(stem: Option<String>, ext: Option<String>, parent: Option<String>) -> (r: Option<
    String,
>)
    ensures
        opt_view(r) == filled_from_parts(opt_view(stem), opt_view(ext), opt_view(parent)),
{
    let mut name = match stem {
        Some(s) => s,
        None => {
            return None;
        },
    };
    let ext = match ext {
        Some(e) => e,
        None => {
            return None;
        },
    };
    name.append("_filled.");
    name.append(ext.as_str());
    let base = match parent {
        Some(p) => p,
        None => owned("."),
    };
    Some(join(base.as_str(), name.as_str()))
}

/// The path of the filled copy of `pdf` when no output path is given.
pub fn filled_output_path(pdf: &str) -> (r: Option<String>)
    ensures
        opt_view(r) == filled_output(pdf@),
{
    filled_output_from_parts(file_stem(pdf), extension(pdf), parent(pdf))
}

/// The filler's YAML, PDF and output paths from its arguments.
pub fn parse_fill_args(args: &Vec<String>) -> (r: Result<(String, String, String), FillArgsError>)
    ensures
        match fill_paths(arg_views(args@)) {
            Ok((y, p, o)) => r matches Ok((ry, rp, ro)) && ry@ == y && rp@ == p && ro@ == o,
            Err(e) => r matches Err(re) && re == e,
        },
{
    if args.len() < 2 {
        return Err(FillArgsError::Usage);
    }
    let yaml = args[0].clone();
    let pdf = args[1].clone();
    if args.len() >= 3 {
        return Ok((yaml, pdf, args[2].clone()));
    }
    match filled_output_path(pdf.as_str()) {
        Some(o) => Ok((yaml, pdf, o)),
        None => Err(FillArgsError::NoOutputPath),
    }
}

/// The fields that the filler visits: the catalog's `AcroForm` entry and
/// that dictionary's `Fields` entry, each followed; either entry missing or
/// unresolvable is an error; an `AcroForm` that is no dictionary, or
/// `Fields` that are no array, give no fields (`None`).
pub open spec fn fill_fields_spec(doc: PdfDocument) -> Result<Option<Seq<PdfObject>>, PdfError> {
    match catalog_spec(doc) {
        Err(e) => Err(e),
        Ok(cat) => match dict_get(cat, key_bytes(KeyName::AcroForm)) {
            None => Err(PdfError::DictKey(KeyName::AcroForm)),
            Some(a) => match resolve(doc, a) {
                Err(e) => Err(e),
                Ok(PdfObject::Dictionary(ad)) => match dict_get(ad, key_bytes(KeyName::Fields)) {
                    None => Err(PdfError::DictKey(KeyName::Fields)),
                    Some(f) => match resolve(doc, f) {
                        Err(e) => Err(e),
                        Ok(PdfObject::Array(fields)) => Ok(Some(fields@)),
                        Ok(_) => Ok(None),
                    },
                },
                Ok(_) => Ok(None),
            },
        },
    }
}

/// The form fields that the filler visits, in order.
pub fn fill_field_list(doc: &PdfDocument) -> (r: Result<Option<&Vec<PdfObject>>, PdfError>)
    ensures
        match fill_fields_spec(*doc) {
            Ok(Some(fs)) => r matches Ok(Some(v)) && v@ == fs,
            Ok(None) => r matches Ok(None),
            Err(e) => r == Err::<Option<&Vec<PdfObject>>, PdfError>(e),
        },
{
    let cat = match doc.catalog() {
        Ok(c) => c,
        Err(e) => {
            return Err(e);
        },
    };
    let acro = match cat.get(KeyName::AcroForm) {
        Ok(a) => a,
        Err(e) => {
            return Err(e);
        },
    };
    let acro = match doc.dereference(acro) {
        Ok((_, o)) => o,
        Err(e) => {
            return Err(e);
        },
    };
    match acro {
        PdfObject::Dictionary(ad) => {
            let fields = match ad.get(KeyName::Fields) {
                Ok(f) => f,
                Err(e) => {
                    return Err(e);
                },
            };
            match doc.dereference(fields) {
                Err(e) => Err(e),
                Ok((_, PdfObject::Array(fs))) => Ok(Some(fs)),
                Ok(_) => Ok(None),
            }
        },
        _ => Ok(None),
    }
}

/// Two objects the same but for `V` entries are equal unless both are
/// dictionaries.
proof fn lemma_same_unless_dicts(a: PdfObject, b: PdfObject)
    requires
        same_except_value(a, b),
    ensures
        !(a is Dictionary) ==> a == b,
        !(b is Dictionary) ==> a == b,
{
}

/// Following references from an object gives related results in two
/// documents that differ only in `V` entries.
proof fn lemma_resolve_agree(d1: PdfDocument, d2: PdfDocument, o: PdfObject)
    requires
        agree_except_values(d1, d2),
    ensures
        match (dereference(d1, o), dereference(d2, o)) {
            (Err(e1), Err(e2)) => e1 == e2,
            (Ok((l1, a)), Ok((l2, b))) => l1 == l2 && same_except_value(a, b),
            _ => false,
        },
{
    lemma_deref_agree(d1, d2, o, None, 0);
}

/// An entry other than `V`, followed, is the same object in both documents
/// unless it is a dictionary.
proof fn lemma_entry_agree(d1: PdfDocument, d2: PdfDocument, f1: PdfDict, f2: PdfDict, key: KeyName)
    requires
        agree_except_values(d1, d2),
        key != KeyName::V,
        dict_get(f1, key_bytes(key)) == dict_get(f2, key_bytes(key)),
    ensures
        match (entry_deref(d1, f1, key), entry_deref(d2, f2, key)) {
            (None, None) => true,
            (Some(a), Some(b)) => same_except_value(a, b) && (!(a is Dictionary) ==> a == b) && (!(
            b is Dictionary) ==> a == b),
            _ => false,
        },
{
    if let Some(o) = dict_get(f1, key_bytes(key)) {
        lemma_resolve_agree(d1, d2, o);
    }
}

/// Reading a number never reads a `V` entry.
proof fn lemma_number_agree(d1: PdfDocument, d2: PdfDocument, o: PdfObject)
    requires
        agree_except_values(d1, d2),
    ensures
        number_spec(d1, o) == number_spec(d2, o),
{
    if let PdfObject::Reference(r) = o {
        lemma_object_spec_agree(d1, d2, r);
        if let (Ok(a), Ok(b)) = (object_spec(d1, r), object_spec(d2, r)) {
            lemma_same_unless_dicts(a, b);
        }
    }
}

/// Reading numbers never reads a `V` entry.
proof fn lemma_numbers_agree(d1: PdfDocument, d2: PdfDocument, items: Seq<PdfObject>)
    requires
        agree_except_values(d1, d2),
    ensures
        numbers_spec(d1, items) == numbers_spec(d2, items),
    decreases items.len(),
{
    if items.len() > 0 {
        lemma_number_agree(d1, d2, items[0]);
        lemma_numbers_agree(d1, d2, items.drop_first());
    }
}

/// Scanning a field for filling never reads its value: in two documents
/// that differ only in the `V` entries of their dictionaries, a field scans
/// to the same id, name, rectangle and page, or the same error. So filling
/// a field again, after its value was stored, matches it as the first time
/// and stores the same value.
pub proof fn lemma_scan_ignores_values(
    d1: PdfDocument,
    d2: PdfDocument,
    field_ref: PdfObject,
    pages: Seq<(u32, ObjectId)>,
)
    requires
        agree_except_values(d1, d2),
    ensures
        scan_spec(d1, field_ref, pages) == scan_spec(d2, field_ref, pages),
{
    if let PdfObject::Reference(fid) = field_ref {
        lemma_object_spec_agree(d1, d2, fid);
        if let (Ok(o1), Ok(o2)) = (object_spec(d1, fid), object_spec(d2, fid)) {
            lemma_same_unless_dicts(o1, o2);
            if let (PdfObject::Dictionary(f1), PdfObject::Dictionary(f2)) = (o1, o2) {
                assert(key_bytes(KeyName::T) != key_bytes(KeyName::V)) by {
                    assert(key_bytes(KeyName::T)[0] != key_bytes(KeyName::V)[0]);
                }
                assert(key_bytes(KeyName::Rect) != key_bytes(KeyName::V)) by {
                    assert(key_bytes(KeyName::Rect).len() != key_bytes(KeyName::V).len());
                }
                assert(key_bytes(KeyName::P) != key_bytes(KeyName::V)) by {
                    assert(key_bytes(KeyName::P)[0] != key_bytes(KeyName::V)[0]);
                }
                lemma_entry_agree(d1, d2, f1, f2, KeyName::T);
                lemma_entry_agree(d1, d2, f1, f2, KeyName::Rect);
                if let Some(PdfObject::Array(a)) = entry_deref(d1, f1, KeyName::Rect) {
                    lemma_numbers_agree(d1, d2, a@);
                }
                if let Some(p) = dict_get(f1, key_bytes(KeyName::P)) {
                    lemma_resolve_agree(d1, d2, p);
                }
                assert(rect_spec(d1, f1, pages) == rect_spec(d2, f2, pages));
            }
        }
    }
}

/// The filler visits the fields of the form: whenever the catalog's
/// `AcroForm` entry and its `Fields` entry, each followed through
/// references, give the array `fs`, the fields that the filler visits are
/// exactly `fs`, in order.
pub proof fn lemma_fills_the_form_fields(doc: PdfDocument)
    ensures
        form_fields(doc) matches Ok(fs) ==> fill_fields_spec(doc) == Ok::<Option<Seq<PdfObject>>, PdfError>(
            Some(fs),
        ),
{
}

} // verus!

//! Listing form fields: each field's name and value, indented by its depth,
//! with its rectangles on request.

use vstd::prelude::*;
use crate::paths::opt_view;
use crate::pdf::{
    KeyName, PdfDict, PdfDocument, PdfError, PdfObject, array_spec, as_array, as_dict, catalog_spec,
    dict_get, dict_spec, key_bytes, resolve,
};
use crate::render::{bounded_text, max_depth, object_text, object_text_with, text_view};
use crate::rename::arg_views;
use crate::text::owned;

verus! {

/// The lines printed, in order, and the error that stopped the printing.
pub type Printed = (Seq<Seq<char>>, Option<PdfError>);

/// Printing stops at once with `e`.
pub open spec fn halt(e: PdfError) -> Option<Printed> {
    Some((Seq::empty(), Some(e)))
}

/// Lines printed before a run.
pub open spec fn then_print(done: Seq<Seq<char>>, rest: Option<Printed>) -> Option<Printed> {
    match rest {
        None => None,
        Some((ls, err)) => Some((done + ls, err)),
    }
}

/// Two spaces for each level of depth.
pub open spec fn indent_text(indent: nat) -> Seq<char> {
    Seq::new(2 * indent, |i: int| ' ')
}

/// The line of a field: its name and its value, or placeholders for them.
pub open spec fn field_line(indent: nat, name: Option<Seq<char>>, value: Option<Seq<char>>) -> Seq<char> {
    indent_text(indent) + match name {
        Some(n) => n,
        None => "<unnamed>"@,
    } + " = "@ + match value {
        Some(v) => v,
        None => "<empty>"@,
    }
}

/// The line of one rectangle of a field.
pub open spec fn rect_line(indent: nat, rect: Seq<char>) -> Seq<char> {
    indent_text(indent) + "  rect: "@ + rect
}

/// The lines of the rectangles of a field.
pub open spec fn rect_lines(indent: nat, rects: Seq<Seq<char>>) -> Seq<Seq<char>> {
    rects.map_values(|r: Seq<char>| rect_line(indent, r))
}

/// An optional text of a dictionary entry, as the listing writes it.
pub open spec fn entry_text(doc: PdfDocument, d: PdfDict, key: KeyName, fuel: nat) -> Option<
    Result<Option<Seq<char>>, PdfError>,
> {
    match dict_get(d, key_bytes(key)) {
        None => Some(Ok(None)),
        Some(o) => match object_text(doc, o, true, fuel) {
            None => None,
            Some(Err(e)) => Some(Err(e)),
            Some(Ok(s)) => Some(Ok(Some(s))),
        },
    }
}

/// The objects in a dictionary's `Kids` entry, when it resolves to an
/// array; else none.
pub open spec fn kid_objects(doc: PdfDocument, d: PdfDict) -> Seq<PdfObject> {
    match dict_get(d, key_bytes(KeyName::Kids)) {
        Some(k) => match resolve(doc, k) {
            Ok(PdfObject::Array(a)) => a@,
            _ => Seq::empty(),
        },
        None => Seq::empty(),
    }
}

/// The rectangles of a field and of its descendants, in order: its own
/// `Rect` entry as text, then those of each kid that resolves to a
/// dictionary. `None` when the recursion would go deeper than `fuel`.
pub open spec fn rects_spec(doc: PdfDocument, d: PdfDict, fuel: nat) -> Option<Result<Seq<Seq<char>>, PdfError>>
    decreases fuel, 0nat,
{
    if fuel == 0 {
        None
    } else {
        match entry_text(doc, d, KeyName::Rect, fuel) {
            None => None,
            Some(Err(e)) => Some(Err(e)),
            Some(Ok(own)) => {
                let own_seq: Seq<Seq<char>> = match own {
                    Some(r) => seq![r],
                    None => Seq::empty(),
                };
                match kid_rects_spec(doc, kid_objects(doc, d), (fuel - 1) as nat) {
                    None => None,
                    Some(Err(e)) => Some(Err(e)),
                    Some(Ok(rs)) => Some(Ok(own_seq + rs)),
                }
            },
        }
    }
}

/// The rectangles of each kid that resolves to a dictionary, in order.
pub open spec fn kid_rects_spec(doc: PdfDocument, kids: Seq<PdfObject>, fuel: nat) -> Option<
    Result<Seq<Seq<char>>, PdfError>,
>
    decreases fuel, kids.len(),
{
    if kids.len() == 0 {
        Some(Ok(Seq::empty()))
    } else {
        let first: Option<Result<Seq<Seq<char>>, PdfError>> = match resolve(doc, kids[0]) {
            Ok(PdfObject::Dictionary(kd)) => rects_spec(doc, kd, fuel),
            _ => Some(Ok(Seq::empty())),
        };
        match first {
            None => None,
            Some(Err(e)) => Some(Err(e)),
            Some(Ok(rs)) => match kid_rects_spec(doc, kids.drop_first(), fuel) {
                None => None,
                Some(Err(e)) => Some(Err(e)),
                Some(Ok(more)) => Some(Ok(rs + more)),
            },
        }
    }
}

/// The lines that printing the field `object` at depth `indent` prints, and
/// the error that stops it: the field's line, its rectangles when asked
/// for, then its kids one level deeper. `None` when the recursion would go
/// deeper than `fuel`.
pub open spec fn field_spec(doc: PdfDocument, object: PdfObject, indent: nat, show_bbox: bool, fuel: nat) -> Option<
    Printed,
>
    decreases fuel, 0nat,
{
    if fuel == 0 {
        None
    } else {
        match resolve(doc, object) {
            Err(e) => halt(e),
            Ok(fo) => match dict_spec(fo) {
                Err(e) => halt(e),
                Ok(fd) => match entry_text(doc, fd, KeyName::T, fuel) {
                    None => None,
                    Some(Err(e)) => halt(e),
                    Some(Ok(name)) => match entry_text(doc, fd, KeyName::V, fuel) {
                        None => None,
                        Some(Err(e)) => halt(e),
                        Some(Ok(value)) => {
                            let line = field_line(indent, name, value);
                            let rects: Option<Result<Seq<Seq<char>>, PdfError>> = if show_bbox {
                                rects_spec(doc, fd, fuel)
                            } else {
                                Some(Ok(Seq::empty()))
                            };
                            match rects {
                                None => None,
                                Some(Err(e)) => Some((seq![line], Some(e))),
                                Some(Ok(rs)) => then_print(
                                    seq![line] + rect_lines(indent, rs),
                                    fields_spec(
                                        doc,
                                        kid_objects(doc, fd),
                                        indent + 1,
                                        show_bbox,
                                        (fuel - 1) as nat,
                                    ),
                                ),
                            }
                        },
                    },
                },
            },
        }
    }
}

/// Printing each field in turn at depth `indent`, until one stops with an
/// error.
pub open spec fn fields_spec(
    doc: PdfDocument,
    fields: Seq<PdfObject>,
    indent: nat,
    show_bbox: bool,
    fuel: nat,
) -> Option<Printed>
    decreases fuel, fields.len(),
{
    if fields.len() == 0 {
        Some((Seq::empty(), None))
    } else {
        match field_spec(doc, fields[0], indent, show_bbox, fuel) {
            None => None,
            Some((ls, Some(e))) => Some((ls, Some(e))),
            Some((ls, None)) => then_print(ls, fields_spec(doc, fields.drop_first(), indent, show_bbox, fuel)),
        }
    }
}

/// The views of printed lines.
pub open spec fn line_views(v: Seq<String>) -> Seq<Seq<char>> {
    v.map_values(|s: String| s@)
}

/// The result that printing ends with.
pub open spec fn print_result(err: Option<PdfError>) -> Result<(), PdfError> {
    match err {
        Some(e) => Err(e),
        None => Ok(()),
    }
}

/// Writes `obj` as the listing does (names after a slash); `DepthLimit`
/// if arrays nest deeper than an index can count.
pub fn object_to_string(doc: &PdfDocument, object: &PdfObject) -> (r: Result<String, PdfError>)
    ensures
        text_view(r) == bounded_text(object_text(*doc, *object, true, max_depth())),
{
    object_text_with(doc, object, true, usize::MAX)
}

/// An entry's text as a caller sees it.
pub open spec fn bounded_entry(r: Option<Result<Option<Seq<char>>, PdfError>>) -> Result<Option<Seq<char>>, PdfError> {
    match r {
        Some(res) => res,
        None => Err(PdfError::DepthLimit),
    }
}

/// The text of an optional dictionary entry.
fn entry_to_string(doc: &PdfDocument, d: &PdfDict, key: KeyName, fuel: usize) -> (r: Result<Option<String>, PdfError>)
    ensures
        bounded_entry(entry_text(*doc, *d, key, fuel as nat)) == match r {
            Ok(o) => Ok::<Option<Seq<char>>, PdfError>(opt_view(o)),
            Err(e) => Err(e),
        },
{
    match d.get(key) {
        Ok(o) => match object_text_with(doc, o, true, fuel) {
            Ok(s) => Ok(Some(s)),
            Err(e) => Err(e),
        },
        Err(_) => Ok(None),
    }
}

/// The kids array of a dictionary, when its `Kids` entry resolves to one.
fn kids_array<'a>(doc: &'a PdfDocument, d: &'a PdfDict) -> (r: Option<&'a Vec<PdfObject>>)
    ensures
        match r {
            Some(a) => a@ == kid_objects(*doc, *d),
            None => kid_objects(*doc, *d) == Seq::<PdfObject>::empty(),
        },
{
    match d.get(KeyName::Kids) {
        Ok(k) => match doc.dereference(k) {
            Ok((_, o)) => match as_array(o) {
                Ok(a) => Some(a),
                Err(_) => None,
            },
            Err(_) => None,
        },
        Err(_) => None,
    }
}

/// Rectangles already collected, before the result for the rest.
pub open spec fn add_rects(
    done: Seq<Seq<char>>,
    rest: Option<Result<Seq<Seq<char>>, PdfError>>,
) -> Option<Result<Seq<Seq<char>>, PdfError>> {
    match rest {
        Some(Ok(rs)) => Some(Ok(done + rs)),
        other => other,
    }
}

/// Rectangles as a caller sees them.
pub open spec fn bounded_rects(r: Option<Result<Seq<Seq<char>>, PdfError>>) -> Result<Seq<Seq<char>>, PdfError> {
    match r {
        Some(res) => res,
        None => Err(PdfError::DepthLimit),
    }
}

/// The view of a rectangle result.
pub open spec fn rects_view(r: Result<Vec<String>, PdfError>) -> Result<Seq<Seq<char>>, PdfError> {
    match r {
        Ok(v) => Ok(line_views(v@)),
        Err(e) => Err(e),
    }
}

/// Appends copies of the strings in `more` to `v`.
fn extend_strings(v: &mut Vec<String>, more: &Vec<String>)
    ensures
        line_views(final(v)@) == line_views(old(v)@) + line_views(more@),
{
    let ghost before = line_views(v@);
    let mut j: usize = 0;
    while j < more.len()
        invariant
            0 <= j <= more@.len(),
            line_views(v@) == before + line_views(more@).take(j as int),
            before == line_views(old(v)@),
        decreases more@.len() - j,
    {
        let ghost prev = v@;
        let c = more[j].clone();
        v.push(c);
        assert(v@ =~= prev.push(c));
        assert(line_views(v@) =~= line_views(prev).push(c@));
        assert(line_views(more@).take(j + 1) =~= line_views(more@).take(j as int).push(more@[j as int]@));
        assert(line_views(v@) =~= before + line_views(more@).take(j + 1));
        j = j + 1;
    }
    assert(line_views(more@).take(more@.len() as int) =~= line_views(more@));
}

/// Collects the rectangles of a field and its descendants, with `fuel`
/// bounding the depth.
pub fn collect_rects_with(doc: &PdfDocument, d: &PdfDict, fuel: usize) -> (r: Result<Vec<String>, PdfError>)
    ensures
        rects_view(r) == bounded_rects(rects_spec(*doc, *d, fuel as nat)),
    decreases fuel,
{
    if fuel == 0 {
        return Err(PdfError::DepthLimit);
    }
    let mut rects: Vec<String> = Vec::new();
    match entry_to_string(doc, d, KeyName::Rect, fuel) {
        Ok(Some(s)) => {
            rects.push(s);
            assert(line_views(rects@) =~= seq![s@]);
        },
        Ok(None) => {
            assert(line_views(rects@) =~= Seq::<Seq<char>>::empty());
        },
        Err(e) => {
            return Err(e);
        },
    }
    let ghost own = line_views(rects@);
    let ghost kids_seq = kid_objects(*doc, *d);
    let f: usize = fuel - 1;
    assert(rects_spec(*doc, *d, fuel as nat) == add_rects(own, kid_rects_spec(*doc, kids_seq, f as nat)));
    match kids_array(doc, d) {
        None => {
            assert(line_views(rects@) =~= own + Seq::empty());
            Ok(rects)
        },
        Some(kids) => {
            let mut i: usize = 0;
            let ghost mut added: Seq<Seq<char>> = Seq::empty();
            assert(kids@.skip(0) =~= kids@);
            assert(line_views(rects@) =~= own + added);
            assert(kid_rects_spec(*doc, kids_seq, f as nat) == add_rects(
                added,
                kid_rects_spec(*doc, kids_seq.skip(0), f as nat),
            )) by {
                if let Some(Ok(rs)) = kid_rects_spec(*doc, kids_seq, f as nat) {
                    assert(added + rs =~= rs);
                }
            }
            while i < kids.len()
                invariant
                    0 <= i <= kids@.len(),
                    f == fuel - 1,
                    kids@ == kids_seq,
                    rects_spec(*doc, *d, fuel as nat) == add_rects(own, kid_rects_spec(*doc, kids_seq, f as nat)),
                    kid_rects_spec(*doc, kids_seq, f as nat) == add_rects(
                        added,
                        kid_rects_spec(*doc, kids_seq.skip(i as int), f as nat),
                    ),
                    line_views(rects@) == own + added,
                decreases kids@.len() - i,
            {
                let ghost rest = kids_seq.skip(i as int);
                assert(rest[0] == kids@[i as int]);
                assert(rest.drop_first() =~= kids_seq.skip(i + 1));
                match doc.dereference(&kids[i]) {
                    Ok((_, ko)) => match as_dict(ko) {
                        Ok(kd) => {
                            match collect_rects_with(doc, kd, f) {
                                Ok(more) => {
                                    extend_strings(&mut rects, &more);
                                    proof {
                                        if let Some(Ok(rs)) = kid_rects_spec(*doc, kids_seq.skip(i + 1), f as nat) {
                                            assert(added + (line_views(more@) + rs) =~= (added
                                                + line_views(more@)) + rs);
                                        }
                                        added = added + line_views(more@);
                                        assert(line_views(rects@) =~= own + added);
                                    }
                                },
                                Err(e) => {
                                    return Err(e);
                                },
                            }
                        },
                        Err(_) => {
                            proof {
                                if let Some(Ok(rs)) = kid_rects_spec(*doc, kids_seq.skip(i + 1), f as nat) {
                                    assert(Seq::<Seq<char>>::empty() + rs =~= rs);
                                }
                            }
                        },
                    },
                    Err(_) => {
                        proof {
                            if let Some(Ok(rs)) = kid_rects_spec(*doc, kids_seq.skip(i + 1), f as nat) {
                                assert(Seq::<Seq<char>>::empty() + rs =~= rs);
                            }
                        }
                    },
                }
                i = i + 1;
            }
            assert(kids_seq.skip(i as int) =~= Seq::<PdfObject>::empty());
            assert(added + Seq::<Seq<char>>::empty() =~= added);
            Ok(rects)
        },
    }
}

/// Two spaces for each level of depth.
fn indent_string(indent: usize) -> (r: String)
    ensures
        r@ == indent_text(indent as nat),
{
    let mut r = String::new();
    let mut i: usize = 0;
    while i < indent
        invariant
            0 <= i <= indent,
            r@ =~= Seq::new(2 * i as nat, |k: int| ' '),
        decreases indent - i,
    {
        crate::text::push_char(&mut r, ' ');
        crate::text::push_char(&mut r, ' ');
        i = i + 1;
    }
    r
}

/// The line of a field.
fn make_field_line(indent: usize, name: Option<String>, value: Option<String>) -> (r: String)
    ensures
        r@ == field_line(indent as nat, opt_view(name), opt_view(value)),
{
    let mut r = indent_string(indent);
    match name {
        Some(n) => r.append(n.as_str()),
        None => r.append("<unnamed>"),
    }
    r.append(" = ");
    match value {
        Some(v) => r.append(v.as_str()),
        None => r.append("<empty>"),
    }
    r
}

/// The line of a rectangle.
fn make_rect_line(indent: usize, rect: &String) -> (r: String)
    ensures
        r@ == rect_line(indent as nat, rect@),
{
    let mut r = indent_string(indent);
    r.append("  rect: ");
    r.append(rect.as_str());
    r
}

/// What printing gives a caller: the lines and the error, or `DepthLimit`
/// when the recursion would go deeper than the bound, with the lines
/// printed before kept.
pub open spec fn print_outcome(
    run: Option<Printed>,
    before: Seq<Seq<char>>,
    after_lines: Seq<Seq<char>>,
    r: Result<(), PdfError>,
) -> bool {
    match run {
        Some((ls, err)) => after_lines == before + ls && r == print_result(err),
        None => r == Err::<(), PdfError>(PdfError::DepthLimit) && before.is_prefix_of(after_lines),
    }
}

/// Prints the field `object` at depth `indent` into `out`: its line, its
/// rectangles when `show_bbox` holds, then its kids one level deeper;
/// `fuel` bounds the depth.
pub fn print_field_with(
    doc: &PdfDocument,
    object: &PdfObject,
    indent: usize,
    show_bbox: bool,
    out: &mut Vec<String>,
    fuel: usize,
) -> (r: Result<(), PdfError>)
    requires
        indent + fuel <= usize::MAX,
    ensures
        print_outcome(
            field_spec(*doc, *object, indent as nat, show_bbox, fuel as nat),
            line_views(old(out)@),
            line_views(final(out)@),
            r,
        ),
    decreases fuel,
{
    if fuel == 0 {
        return Err(PdfError::DepthLimit);
    }
    let ghost start = line_views(out@);
    let fo = match doc.dereference(object) {
        Ok((_, o)) => o,
        Err(e) => {
            assert(line_views(out@) =~= start + Seq::empty());
            return Err(e);
        },
    };
    let fd = match as_dict(fo) {
        Ok(d) => d,
        Err(e) => {
            assert(line_views(out@) =~= start + Seq::empty());
            return Err(e);
        },
    };
    let name = match entry_to_string(doc, fd, KeyName::T, fuel) {
        Ok(n) => n,
        Err(e) => {
            assert(line_views(out@) =~= start + Seq::empty());
            return Err(e);
        },
    };
    let value = match entry_to_string(doc, fd, KeyName::V, fuel) {
        Ok(v) => v,
        Err(e) => {
            assert(line_views(out@) =~= start + Seq::empty());
            return Err(e);
        },
    };
    let line = make_field_line(indent, name, value);
    let ghost line_v = line@;
    let ghost prev = out@;
    out.push(line);
    assert(line_views(out@) =~= line_views(prev).push(line_v));
    assert(line_views(out@) =~= start + seq![line_v]);
    let ghost mut rect_ls: Seq<Seq<char>> = Seq::empty();
    if show_bbox {
        let rects = match collect_rects_with(doc, fd, fuel) {
            Ok(r) => r,
            Err(e) => {
                return Err(e);
            },
        };
        let mut j: usize = 0;
        while j < rects.len()
            invariant
                0 <= j <= rects@.len(),
                line_views(out@) == start + seq![line_v] + rect_lines(indent as nat, line_views(rects@)).take(
                    j as int,
                ),
            decreases rects@.len() - j,
        {
            let rl = make_rect_line(indent, &rects[j]);
            let ghost prev = out@;
            let ghost rl_v = rl@;
            out.push(rl);
            assert(line_views(out@) =~= line_views(prev).push(rl_v));
            assert(rect_lines(indent as nat, line_views(rects@)).take(j + 1) =~= rect_lines(
                indent as nat,
                line_views(rects@),
            ).take(j as int).push(rl_v));
            j = j + 1;
        }
        assert(rect_lines(indent as nat, line_views(rects@)).take(rects@.len() as int) =~= rect_lines(
            indent as nat,
            line_views(rects@),
        ));
        proof {
            rect_ls = rect_lines(indent as nat, line_views(rects@));
        }
    }
    let ghost own = seq![line_v] + rect_ls;
    assert(line_views(out@) =~= start + own);
    let ghost kids_seq = kid_objects(*doc, *fd);
    let f: usize = fuel - 1;
    let deeper: usize = indent + 1;
    assert(field_spec(*doc, *object, indent as nat, show_bbox, fuel as nat) == then_print(
        own,
        fields_spec(*doc, kids_seq, deeper as nat, show_bbox, f as nat),
    ));
    match kids_array(doc, fd) {
        None => {
            assert(line_views(out@) =~= start + (own + Seq::empty()));
            Ok(())
        },
        Some(kids) => {
            let mut i: usize = 0;
            let ghost mut added: Seq<Seq<char>> = Seq::empty();
            assert(kids@.skip(0) =~= kids@);
            assert(fields_spec(*doc, kids_seq, deeper as nat, show_bbox, f as nat) == then_print(
                added,
                fields_spec(*doc, kids_seq.skip(0), deeper as nat, show_bbox, f as nat),
            )) by {
                if let Some((ls, e)) = fields_spec(*doc, kids_seq, deeper as nat, show_bbox, f as nat) {
                    assert(added + ls =~= ls);
                }
            }
            while i < kids.len()
                invariant
                    0 <= i <= kids@.len(),
                    f == fuel - 1,
                    deeper == indent + 1,
                    deeper + f <= usize::MAX,
                    kids@ == kids_seq,
                    start == line_views(old(out)@),
                    field_spec(*doc, *object, indent as nat, show_bbox, fuel as nat) == then_print(
                        own,
                        fields_spec(*doc, kids_seq, deeper as nat, show_bbox, f as nat),
                    ),
                    fields_spec(*doc, kids_seq, deeper as nat, show_bbox, f as nat) == then_print(
                        added,
                        fields_spec(*doc, kids_seq.skip(i as int), deeper as nat, show_bbox, f as nat),
                    ),
                    line_views(out@) == start + own + added,
                decreases kids@.len() - i,
            {
                let ghost rest = kids_seq.skip(i as int);
                assert(rest[0] == kids@[i as int]);
                assert(rest.drop_first() =~= kids_seq.skip(i + 1));
                let res = print_field_with(doc, &kids[i], deeper, show_bbox, out, f);
                let ghost kid_run = field_spec(*doc, kids@[i as int], deeper as nat, show_bbox, f as nat);
                assert(fields_spec(*doc, rest, deeper as nat, show_bbox, f as nat) == match kid_run {
                    None => None,
                    Some((ls, Some(e))) => Some((ls, Some(e))),
                    Some((ls, None)) => then_print(
                        ls,
                        fields_spec(*doc, kids_seq.skip(i + 1), deeper as nat, show_bbox, f as nat),
                    ),
                });
                match res {
                    Ok(()) => {},
                    Err(e) => {
                        proof {
                            if let Some((ls, _)) = kid_run {
                                assert(start + own + added + ls =~= start + (own + (added + ls)));
                            }
                        }
                        return Err(e);
                    },
                }
                proof {
                    let ls = kid_run.unwrap().0;
                    if let Some((more, _)) = fields_spec(*doc, kids_seq.skip(i + 1), deeper as nat, show_bbox, f as nat) {
                        assert(added + (ls + more) =~= (added + ls) + more);
                    }
                    added = added + ls;
                    assert(line_views(out@) =~= start + own + added);
                }
                i = i + 1;
            }
            assert(kids_seq.skip(i as int) =~= Seq::<PdfObject>::empty());
            assert(line_views(out@) =~= start + (own + (added + Seq::empty())));
            Ok(())
        },
    }
}

/// The message for a document without an interactive form.
pub open spec fn no_acroform_line(path: Seq<char>) -> Seq<char> {
    "No AcroForm dictionary found in "@ + path
}

/// The message for a form without fields.
pub open spec fn no_fields_line(path: Seq<char>) -> Seq<char> {
    "No form fields found in "@ + path
}

/// The heading of the listing.
pub open spec fn heading_line(path: Seq<char>) -> Seq<char> {
    "Form fields for "@ + path + ":\n"@
}

/// What listing the form fields of the document at `path` prints: a message
/// when it has no form or no fields, else a heading and each top-level
/// field at depth zero. `None` when the recursion would go deeper than
/// `fuel`.
pub open spec fn report_spec(doc: PdfDocument, path: Seq<char>, show_bbox: bool, fuel: nat) -> Option<Printed> {
    match catalog_spec(doc) {
        Err(e) => halt(e),
        Ok(cat) => match dict_get(cat, key_bytes(KeyName::AcroForm)) {
            None => Some((seq![no_acroform_line(path)], None)),
            Some(a) => match resolve(doc, a) {
                Err(e) => halt(e),
                Ok(ao) => match dict_spec(ao) {
                    Err(e) => halt(e),
                    Ok(ad) => match dict_get(ad, key_bytes(KeyName::Fields)) {
                        None => Some((seq![no_fields_line(path)], None)),
                        Some(fl) => match resolve(doc, fl) {
                            Err(e) => halt(e),
                            Ok(fo) => match array_spec(fo) {
                                Err(e) => halt(e),
                                Ok(fields) => if fields.len() == 0 {
                                    Some((seq![no_fields_line(path)], None))
                                } else {
                                    then_print(
                                        seq![heading_line(path)],
                                        fields_spec(doc, fields, 0, show_bbox, fuel),
                                    )
                                },
                            },
                        },
                    },
                },
            },
        },
    }
}

/// A line `prefix` followed by `path`.
fn message(prefix: &str, path: &str) -> (r: String)
    ensures
        r@ == prefix@ + path@,
{
    let mut r = owned(prefix);
    r.append(path);
    r
}

/// Lists the form fields of the document at `path` into `out`: a message
/// when it has no form or no fields, else a heading and every field, each
/// kid one level deeper than its parent, with rectangles when `show_bbox`
/// holds. Stops at the first error, keeping the lines printed before it.
pub fn list_form_fields(doc: &PdfDocument, path: &str, show_bbox: bool, out: &mut Vec<String>) -> (r: Result<
    (),
    PdfError,
>)
    ensures
        print_outcome(
            report_spec(*doc, path@, show_bbox, max_depth()),
            line_views(old(out)@),
            line_views(final(out)@),
            r,
        ),
{
    let ghost fuel = max_depth();
    let ghost start = line_views(out@);
    let cat = match doc.catalog() {
        Ok(c) => c,
        Err(e) => {
            assert(line_views(out@) =~= start + Seq::empty());
            return Err(e);
        },
    };
    let acro = match cat.get(KeyName::AcroForm) {
        Ok(a) => a,
        Err(_) => {
            let m = message("No AcroForm dictionary found in ", path);
            assert(m@ =~= no_acroform_line(path@));
            out.push(m);
            assert(line_views(out@) =~= start + seq![m@]);
            return Ok(());
        },
    };
    let acro = match doc.dereference(acro) {
        Ok((_, o)) => o,
        Err(e) => {
            assert(line_views(out@) =~= start + Seq::empty());
            return Err(e);
        },
    };
    let acro = match as_dict(acro) {
        Ok(d) => d,
        Err(e) => {
            assert(line_views(out@) =~= start + Seq::empty());
            return Err(e);
        },
    };
    let fields = match acro.get(KeyName::Fields) {
        Ok(f) => f,
        Err(_) => {
            let m = message("No form fields found in ", path);
            assert(m@ =~= no_fields_line(path@));
            out.push(m);
            assert(line_views(out@) =~= start + seq![m@]);
            return Ok(());
        },
    };
    let fields = match doc.dereference(fields) {
        Ok((_, o)) => o,
        Err(e) => {
            assert(line_views(out@) =~= start + Seq::empty());
            return Err(e);
        },
    };
    let fields = match as_array(fields) {
        Ok(a) => a,
        Err(e) => {
            assert(line_views(out@) =~= start + Seq::empty());
            return Err(e);
        },
    };
    if fields.len() == 0 {
        let m = message("No form fields found in ", path);
        assert(m@ =~= no_fields_line(path@));
        out.push(m);
        assert(line_views(out@) =~= start + seq![m@]);
        return Ok(());
    }
    let mut h = message("Form fields for ", path);
    h.append(":\n");
    let ghost hv = h@;
    out.push(h);
    let ghost own = seq![hv];
    assert(line_views(out@) =~= start + own);
    let ghost fs = fields@;
    let mut i: usize = 0;
    let ghost mut added: Seq<Seq<char>> = Seq::empty();
    assert(fs.skip(0) =~= fs);
    assert(fields_spec(*doc, fs, 0, show_bbox, fuel) == then_print(
        added,
        fields_spec(*doc, fs.skip(0), 0, show_bbox, fuel),
    )) by {
        if let Some((ls, e)) = fields_spec(*doc, fs, 0, show_bbox, fuel) {
            assert(added + ls =~= ls);
        }
    }
    while i < fields.len()
        invariant
            0 <= i <= fields@.len(),
            fs == fields@,
            fuel == max_depth(),
            start == line_views(old(out)@),
            report_spec(*doc, path@, show_bbox, fuel) == then_print(own, fields_spec(*doc, fs, 0, show_bbox, fuel)),
            fields_spec(*doc, fs, 0, show_bbox, fuel) == then_print(
                added,
                fields_spec(*doc, fs.skip(i as int), 0, show_bbox, fuel),
            ),
            line_views(out@) == start + own + added,
        decreases fields@.len() - i,
    {
        let ghost rest = fs.skip(i as int);
        assert(rest[0] == fields@[i as int]);
        assert(rest.drop_first() =~= fs.skip(i + 1));
        let res = print_field_with(doc, &fields[i], 0, show_bbox, out, usize::MAX);
        let ghost run = field_spec(*doc, fields@[i as int], 0, show_bbox, fuel);
        assert(fields_spec(*doc, rest, 0, show_bbox, fuel) == match run {
            None => None,
            Some((ls, Some(e))) => Some((ls, Some(e))),
            Some((ls, None)) => then_print(ls, fields_spec(*doc, fs.skip(i + 1), 0, show_bbox, fuel)),
        });
        match res {
            Ok(()) => {},
            Err(e) => {
                proof {
                    if let Some((ls, _)) = run {
                        assert(start + own + added + ls =~= start + (own + (added + ls)));
                    }
                }
                return Err(e);
            },
        }
        proof {
            let ls = run.unwrap().0;
            if let Some((more, _)) = fields_spec(*doc, fs.skip(i + 1), 0, show_bbox, fuel) {
                assert(added + (ls + more) =~= (added + ls) + more);
            }
            added = added + ls;
            assert(line_views(out@) =~= start + own + added);
        }
        i = i + 1;
    }
    assert(fs.skip(i as int) =~= Seq::<PdfObject>::empty());
    assert(line_views(out@) =~= start + (own + (added + Seq::empty())));
    Ok(())
}

/// The usage line of the listing tool.
pub open spec fn fields_usage() -> Seq<char> {
    "Usage: form_fields [--bbox] <pdf-path>"@
}

/// The usage line of the listing tool.
pub fn fields_usage_text() -> (r: String)
    ensures
        r@ == fields_usage(),
{
    owned("Usage: form_fields [--bbox] <pdf-path>")
}

/// Whether an argument asks for rectangles.
pub open spec fn is_bbox_flag(a: Seq<char>) -> bool {
    a == "--bbox"@ || a == "-b"@
}

/// Reading the listing tool's arguments from left to right: a rectangle
/// flag anywhere turns rectangles on; the first other argument is the path;
/// any further one is a usage error (`None`).
pub open spec fn scan_fields_args(args: Seq<Seq<char>>, show: bool, path: Option<Seq<char>>) -> Option<
    (bool, Option<Seq<char>>),
>
    decreases args.len(),
{
    if args.len() == 0 {
        Some((show, path))
    } else if is_bbox_flag(args[0]) {
        scan_fields_args(args.drop_first(), true, path)
    } else if path is None {
        scan_fields_args(args.drop_first(), show, Some(args[0]))
    } else {
        None
    }
}

/// Whether to show rectangles, and the path, from the listing tool's
/// arguments (the program name left out); `None` on a usage error,
/// including a missing path.
pub open spec fn fields_args(args: Seq<Seq<char>>) -> Option<(bool, Seq<char>)> {
    match scan_fields_args(args, false, None) {
        Some((show, Some(p))) => Some((show, p)),
        _ => None,
    }
}

/// Whether to show rectangles, and the path, from the listing tool's
/// arguments; `None` when they do not fit its usage.
pub fn parse_fields_args(args: &Vec<String>) -> (r: Option<(bool, String)>)
    ensures
        match fields_args(arg_views(args@)) {
            Some((show, p)) => r matches Some((rs, rp)) && rs == show && rp@ == p,
            None => r is None,
        },
{
    let ghost views = arg_views(args@);
    let long_flag = owned("--bbox");
    let short_flag = owned("-b");
    let mut show = false;
    let mut path: Option<String> = None;
    let mut i: usize = 0;
    assert(views.skip(0) =~= views);
    while i < args.len()
        invariant
            0 <= i <= args@.len(),
            views == arg_views(args@),
            long_flag@ == "--bbox"@,
            short_flag@ == "-b"@,
            scan_fields_args(views, false, None) == scan_fields_args(views.skip(i as int), show, opt_view(path)),
        decreases args@.len() - i,
    {
        let ghost rest = views.skip(i as int);
        assert(rest[0] == args@[i as int]@);
        assert(rest.drop_first() =~= views.skip(i + 1));
        let a = &args[i];
        if *a == long_flag || *a == short_flag {
            show = true;
        } else if path.is_none() {
            path = Some(a.clone());
        } else {
            return None;
        }
        i = i + 1;
    }
    assert(views.skip(i as int) =~= Seq::<Seq<char>>::empty());
    match path {
        Some(p) => Some((show, p)),
        None => None,
    }
}

/// The depth bound left for printing at depth `indent`.
pub open spec fn depth_left(indent: nat) -> nat {
    (usize::MAX - indent) as nat
}

/// Prints the field `object` at depth `indent` into `out`: its name and
/// value, its rectangles when `show_bbox` holds, then its kids one level
/// deeper. Stops at the first error, keeping the lines printed before it.
pub fn print_field(doc: &PdfDocument, object: &PdfObject, indent: usize, show_bbox: bool, out: &mut Vec<String>) -> (r:
    Result<(), PdfError>)
    ensures
        print_outcome(
            field_spec(*doc, *object, indent as nat, show_bbox, depth_left(indent as nat)),
            line_views(old(out)@),
            line_views(final(out)@),
            r,
        ),
{
    print_field_with(doc, object, indent, show_bbox, out, usize::MAX - indent)
}

/// The rectangles of a field and of its descendants, as text, in order.
pub fn collect_rects(doc: &PdfDocument, d: &PdfDict) -> (r: Result<Vec<String>, PdfError>)
    ensures
        rects_view(r) == bounded_rects(rects_spec(*doc, *d, max_depth())),
{
    collect_rects_with(doc, d, usize::MAX)
}

/// Whether every line begins with the indentation of depth `indent`.
pub open spec fn all_indented(ls: Seq<Seq<char>>, indent: nat) -> bool {
    forall|i: int| 0 <= i < ls.len() ==> indent_text(indent).is_prefix_of(#[trigger] ls[i])
}

proof fn lemma_indented_concat(a: Seq<Seq<char>>, b: Seq<Seq<char>>, indent: nat)
    requires
        all_indented(a, indent),
        all_indented(b, indent),
    ensures
        all_indented(a + b, indent),
{
    assert forall|i: int| 0 <= i < (a + b).len() implies indent_text(indent).is_prefix_of(#[trigger] (a + b)[i]) by {
        if i < a.len() {
            assert((a + b)[i] == a[i]);
        } else {
            assert((a + b)[i] == b[i - a.len()]);
        }
    }
}

proof fn lemma_deeper_indented(ls: Seq<Seq<char>>, indent: nat)
    requires
        all_indented(ls, indent + 1),
    ensures
        all_indented(ls, indent),
{
    assert forall|i: int| 0 <= i < ls.len() implies indent_text(indent).is_prefix_of(#[trigger] ls[i]) by {
        assert(indent_text(indent + 1).is_prefix_of(ls[i]));
        assert forall|k: int| 0 <= k < indent_text(indent).len() implies indent_text(indent)[k] == ls[i][k] by {
            assert(indent_text(indent + 1)[k] == ls[i][k]);
        }
    }
}

/// Every line printed for a field at depth `indent`, its own, its
/// rectangles' and its descendants', begins with that depth's indentation:
/// a kid is never printed shallower than its parent.
pub proof fn lemma_field_lines_indented(doc: PdfDocument, object: PdfObject, indent: nat, show_bbox: bool, fuel: nat)
    requires
        field_spec(doc, object, indent, show_bbox, fuel) is Some,
    ensures
        all_indented(field_spec(doc, object, indent, show_bbox, fuel).unwrap().0, indent),
    decreases fuel, 0nat,
{
    if let Ok(fo) = resolve(doc, object) {
        if let Ok(fd) = dict_spec(fo) {
            if let Some(Ok(name)) = entry_text(doc, fd, KeyName::T, fuel) {
                if let Some(Ok(value)) = entry_text(doc, fd, KeyName::V, fuel) {
                    let line = field_line(indent, name, value);
                    assert(indent_text(indent).is_prefix_of(line)) by {
                        assert forall|k: int| 0 <= k < indent_text(indent).len() implies indent_text(indent)[k]
                            == line[k] by {
                            let tail = match name {
                                Some(n) => n,
                                None => "<unnamed>"@,
                            } + " = "@ + match value {
                                Some(v) => v,
                                None => "<empty>"@,
                            };
                            assert(line =~= indent_text(indent) + tail);
                        }
                    }
                    assert(all_indented(seq![line], indent));
                    let rects: Option<Result<Seq<Seq<char>>, PdfError>> = if show_bbox {
                        rects_spec(doc, fd, fuel)
                    } else {
                        Some(Ok(Seq::empty()))
                    };
                    if let Some(Ok(rs)) = rects {
                        let rl = rect_lines(indent, rs);
                        assert(all_indented(rl, indent)) by {
                            assert forall|i: int| 0 <= i < rl.len() implies indent_text(indent).is_prefix_of(
                                #[trigger] rl[i],
                            ) by {
                                assert(rl[i] == rect_line(indent, rs[i]));
                                assert(rl[i] =~= indent_text(indent) + ("  rect: "@ + rs[i]));
                            }
                        }
                        lemma_indented_concat(seq![line], rl, indent);
                        let kids = kid_objects(doc, fd);
                        lemma_fields_lines_indented(doc, kids, indent + 1, show_bbox, (fuel - 1) as nat);
                        let more = fields_spec(doc, kids, indent + 1, show_bbox, (fuel - 1) as nat).unwrap().0;
                        lemma_deeper_indented(more, indent);
                        lemma_indented_concat(seq![line] + rl, more, indent);
                    }
                }
            }
        }
    }
}

/// Every line printed for fields at depth `indent` begins with that depth's
/// indentation.
pub proof fn lemma_fields_lines_indented(
    doc: PdfDocument,
    fields: Seq<PdfObject>,
    indent: nat,
    show_bbox: bool,
    fuel: nat,
)
    requires
        fields_spec(doc, fields, indent, show_bbox, fuel) is Some,
    ensures
        all_indented(fields_spec(doc, fields, indent, show_bbox, fuel).unwrap().0, indent),
    decreases fuel, fields.len(),
{
    if fields.len() > 0 {
        lemma_field_lines_indented(doc, fields[0], indent, show_bbox, fuel);
        if let Some((ls, None)) = field_spec(doc, fields[0], indent, show_bbox, fuel) {
            lemma_fields_lines_indented(doc, fields.drop_first(), indent, show_bbox, fuel);
            lemma_indented_concat(
                ls,
                fields_spec(doc, fields.drop_first(), indent, show_bbox, fuel).unwrap().0,
                indent,
            );
        }
    }
}

/// The rectangles of a list of kids are those of its first part followed
/// by those of its second part: no kid's rectangles are left out or
/// reordered.
pub proof fn lemma_kid_rects_concat(doc: PdfDocument, a: Seq<PdfObject>, b: Seq<PdfObject>, fuel: nat)
    requires
        kid_rects_spec(doc, a, fuel) is Some,
        kid_rects_spec(doc, a, fuel).unwrap() is Ok,
        kid_rects_spec(doc, b, fuel) is Some,
        kid_rects_spec(doc, b, fuel).unwrap() is Ok,
    ensures
        kid_rects_spec(doc, a + b, fuel) == Some(
            Ok::<Seq<Seq<char>>, PdfError>(
                kid_rects_spec(doc, a, fuel).unwrap()->Ok_0 + kid_rects_spec(doc, b, fuel).unwrap()->Ok_0,
            ),
        ),
    decreases a.len(),
{
    let rb = kid_rects_spec(doc, b, fuel).unwrap()->Ok_0;
    if a.len() == 0 {
        assert(a + b =~= b);
        assert(Seq::<Seq<char>>::empty() + rb =~= rb);
    } else {
        let a1 = a.drop_first();
        assert((a + b)[0] == a[0]);
        assert((a + b).drop_first() =~= a1 + b);
        lemma_kid_rects_concat(doc, a1, b, fuel);
        let rs = match resolve(doc, a[0]) {
            Ok(PdfObject::Dictionary(kd)) => rects_spec(doc, kd, fuel),
            _ => Some(Ok(Seq::empty())),
        }.unwrap()->Ok_0;
        let ra1 = kid_rects_spec(doc, a1, fuel).unwrap()->Ok_0;
        assert(rs + (ra1 + rb) =~= (rs + ra1) + rb);
    }
}

/// The rectangles of a single kid: those of the field it resolves to, or
/// none when it resolves to no dictionary.
pub proof fn lemma_kid_rects_single(doc: PdfDocument, k: PdfObject, fuel: nat)
    ensures
        kid_rects_spec(doc, seq![k], fuel) == match resolve(doc, k) {
            Ok(PdfObject::Dictionary(kd)) => rects_spec(doc, kd, fuel),
            _ => Some(Ok(Seq::empty())),
        },
{
    let one = seq![k];
    assert(one[0] == k);
    assert(one.drop_first() =~= Seq::<PdfObject>::empty());
    assert(kid_rects_spec(doc, one.drop_first(), fuel) == Some(Ok::<Seq<Seq<char>>, PdfError>(Seq::empty())));
    match resolve(doc, k) {
        Ok(PdfObject::Dictionary(kd)) => {
            if let Some(Ok(rs)) = rects_spec(doc, kd, fuel) {
                assert(rs + Seq::<Seq<char>>::empty() =~= rs);
            }
        },
        _ => {
            assert(Seq::<Seq<char>>::empty() + Seq::<Seq<char>>::empty() =~= Seq::<Seq<char>>::empty());
        },
    }
}

/// The rectangles of a field are its own `Rect`, written as text, followed
/// by the rectangles of all of its kids.
pub proof fn lemma_field_rects(doc: PdfDocument, d: PdfDict, fuel: nat)
    requires
        rects_spec(doc, d, fuel) matches Some(Ok(_)),
    ensures
        kid_rects_spec(doc, kid_objects(doc, d), (fuel - 1) as nat) matches Some(Ok(ks)) && rects_spec(
            doc,
            d,
            fuel,
        ) == Some(
            Ok::<Seq<Seq<char>>, PdfError>(
                match dict_get(d, key_bytes(KeyName::Rect)) {
                    Some(r) => seq![object_text(doc, r, true, fuel).unwrap()->Ok_0],
                    None => Seq::empty(),
                } + ks,
            ),
        ),
{
}

/// Lines with two more spaces in front of each.
pub open spec fn indent_lines(ls: Seq<Seq<char>>) -> Seq<Seq<char>> {
    ls.map_values(|l: Seq<char>| seq![' ', ' '] + l)
}

/// A printing run with two more spaces in front of each line.
pub open spec fn indent_printed(p: Option<Printed>) -> Option<Printed> {
    match p {
        None => None,
        Some((ls, err)) => Some((indent_lines(ls), err)),
    }
}

proof fn lemma_indent_lines_concat(a: Seq<Seq<char>>, b: Seq<Seq<char>>)
    ensures
        indent_lines(a + b) == indent_lines(a) + indent_lines(b),
{
    assert(indent_lines(a + b) =~= indent_lines(a) + indent_lines(b));
}

proof fn lemma_indent_then_print(done: Seq<Seq<char>>, rest: Option<Printed>)
    ensures
        indent_printed(then_print(done, rest)) == then_print(indent_lines(done), indent_printed(rest)),
{
    if let Some((ls, err)) = rest {
        lemma_indent_lines_concat(done, ls);
    }
}

proof fn lemma_indent_text_succ(d: nat)
    ensures
        indent_text(d + 1) == seq![' ', ' '] + indent_text(d),
{
    assert(indent_text(d + 1) =~= seq![' ', ' '] + indent_text(d));
}

/// Printing a field one level deeper prints the same lines, each with two
/// more spaces in front, and stops with the same error: the field's kids,
/// and theirs, move down with it.
pub proof fn lemma_field_deeper(doc: PdfDocument, object: PdfObject, d: nat, show_bbox: bool, fuel: nat)
    ensures
        field_spec(doc, object, d + 1, show_bbox, fuel) == indent_printed(field_spec(doc, object, d, show_bbox, fuel)),
    decreases fuel, 0nat,
{
    if fuel > 0 {
        if let Ok(fo) = resolve(doc, object) {
            if let Ok(fd) = dict_spec(fo) {
                if let Some(Ok(name)) = entry_text(doc, fd, KeyName::T, fuel) {
                    if let Some(Ok(value)) = entry_text(doc, fd, KeyName::V, fuel) {
                        lemma_indent_text_succ(d);
                        let line = field_line(d, name, value);
                        let line1 = field_line(d + 1, name, value);
                        assert(line1 =~= seq![' ', ' '] + line);
                        assert(indent_lines(seq![line]) =~= seq![line1]);
                        let rects: Option<Result<Seq<Seq<char>>, PdfError>> = if show_bbox {
                            rects_spec(doc, fd, fuel)
                        } else {
                            Some(Ok(Seq::empty()))
                        };
                        if let Some(Ok(rs)) = rects {
                            assert(indent_lines(rect_lines(d, rs)) =~= rect_lines(d + 1, rs)) by {
                                assert forall|i: int| 0 <= i < rs.len() implies indent_lines(rect_lines(d, rs))[i]
                                    == rect_lines(d + 1, rs)[i] by {
                                    assert(rect_line(d + 1, rs[i]) =~= seq![' ', ' '] + rect_line(d, rs[i]));
                                }
                            }
                            lemma_indent_lines_concat(seq![line], rect_lines(d, rs));
                            let kids = kid_objects(doc, fd);
                            lemma_fields_deeper(doc, kids, d + 1, show_bbox, (fuel - 1) as nat);
                            lemma_indent_then_print(
                                seq![line] + rect_lines(d, rs),
                                fields_spec(doc, kids, d + 1, show_bbox, (fuel - 1) as nat),
                            );
                        }
                    }
                }
            }
        }
    }
}

/// Printing fields one level deeper prints the same lines, each with two
/// more spaces in front, and stops with the same error.
pub proof fn lemma_fields_deeper(doc: PdfDocument, fields: Seq<PdfObject>, d: nat, show_bbox: bool, fuel: nat)
    ensures
        fields_spec(doc, fields, d + 1, show_bbox, fuel) == indent_printed(fields_spec(doc, fields, d, show_bbox, fuel)),
    decreases fuel, fields.len(),
{
    if fields.len() == 0 {
        assert(indent_lines(Seq::<Seq<char>>::empty()) =~= Seq::<Seq<char>>::empty());
    } else {
        lemma_field_deeper(doc, fields[0], d, show_bbox, fuel);
        if let Some((ls, None)) = field_spec(doc, fields[0], d, show_bbox, fuel) {
            lemma_fields_deeper(doc, fields.drop_first(), d, show_bbox, fuel);
            lemma_indent_then_print(ls, fields_spec(doc, fields.drop_first(), d, show_bbox, fuel));
        }
    }
}

/// A field's kids are printed one level deeper than it: after the field's
/// own line (and rectangles) come the lines that printing its kids at the
/// field's own depth gives, each with two more spaces in front.
pub proof fn lemma_kids_one_level_deeper(doc: PdfDocument, object: PdfObject, d: nat, fuel: nat)
    requires
        fuel > 0,
        resolve(doc, object) matches Ok(PdfObject::Dictionary(fd)) && entry_text(doc, fd, KeyName::T, fuel)
            matches Some(Ok(name)) && entry_text(doc, fd, KeyName::V, fuel) matches Some(Ok(value)),
    ensures
        ({
            let fd = resolve(doc, object)->Ok_0->Dictionary_0;
            let name = entry_text(doc, fd, KeyName::T, fuel)->Some_0->Ok_0;
            let value = entry_text(doc, fd, KeyName::V, fuel)->Some_0->Ok_0;
            field_spec(doc, object, d, false, fuel) == then_print(
                seq![field_line(d, name, value)],
                indent_printed(fields_spec(doc, kid_objects(doc, fd), d, false, (fuel - 1) as nat)),
            )
        }),
{
    let fd = resolve(doc, object)->Ok_0->Dictionary_0;
    lemma_fields_deeper(doc, kid_objects(doc, fd), d, false, (fuel - 1) as nat);
    let name = entry_text(doc, fd, KeyName::T, fuel)->Some_0->Ok_0;
    let value = entry_text(doc, fd, KeyName::V, fuel)->Some_0->Ok_0;
    assert(rect_lines(d, Seq::<Seq<char>>::empty()) =~= Seq::<Seq<char>>::empty());
    assert(seq![field_line(d, name, value)] + rect_lines(d, Seq::<Seq<char>>::empty()) =~= seq![
        field_line(d, name, value),
    ]);
}

} // verus!

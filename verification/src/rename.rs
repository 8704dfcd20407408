//! Renaming form fields: every text field's value becomes its fully
//! qualified name, the names of its ancestors and its own joined by dots.

use vstd::prelude::*;
use crate::paths::{file_stem, join, opt_view, parent, path_file_stem, path_join, path_parent};
use crate::pdf::{
    KeyName, ObjectId, PdfDict, PdfDocument, PdfError, PdfObject, array_spec, as_array, as_dict,
    as_name, as_reference, catalog_spec, dereference, dict_get, dict_spec, key_bytes, object_spec,
    reference_spec, resolve, target_spec, agree_except_values, same_except_value, lemma_deref_agree,
    lemma_object_spec_agree, doc_get, deref_from, deref_limit,
};
use crate::render::{bounded_text, max_depth, object_text, object_text_with, text_view};
use crate::text::chars_to_string;

verus! {

/// The name given to a field that has no name and no parent.
pub open spec fn unnamed() -> Seq<char> {
    seq!['<', 'u', 'n', 'n', 'a', 'm', 'e', 'd', '>']
}

/// The fully qualified name of a field: its parent's full name and its own
/// partial name, joined by a dot; either alone when the other is missing.
pub open spec fn full_name(prefix: Option<Seq<char>>, current: Option<Seq<char>>) -> Seq<char> {
    match (prefix, current) {
        (Some(p), Some(c)) => p + seq!['.'] + c,
        (Some(p), None) => p,
        (None, Some(c)) => c,
        (None, None) => unnamed(),
    }
}

/// The fully qualified name of a field from its parent's full name and its
/// own partial name.
pub fn make_full_name(prefix: Option<String>, current: Option<String>) -> (r: String)
    ensures
        r@ == full_name(opt_view(prefix), opt_view(current)),
{
    match (prefix, current) {
        (Some(prefix), Some(current)) => {
            let mut r = prefix;
            let dot = chars_to_string(&vec!['.']);
            r.append(dot.as_str());
            r.append(current.as_str());
            r
        },
        (Some(prefix), None) => prefix,
        (None, Some(current)) => current,
        (None, None) => {
            let v = vec!['<', 'u', 'n', 'n', 'a', 'm', 'e', 'd', '>'];
            assert(v@ =~= unnamed());
            chars_to_string(&v)
        },
    }
}

/// The stem used when the input path has no file stem.
pub open spec fn fallback_stem() -> Seq<char> {
    seq!['r', 'e', 'n', 'a', 'm', 'e', 'd', '_', 'f', 'o', 'r', 'm']
}

/// What follows the stem in the name of the renamed copy.
pub open spec fn renamed_suffix() -> Seq<char> {
    seq!['_', 'r', 'e', 'n', 'a', 'm', 'e', 'd', '.', 'p', 'd', 'f']
}

/// The path of the renamed copy from the parts of the input path: the file
/// name is the stem, or a fallback stem, followed by `_renamed.pdf`; it is
/// joined to the parent, when there is one.
pub open spec fn renamed_from_parts(stem: Option<Seq<char>>, parent: Option<Seq<char>>) -> Seq<char> {
    let name = match stem {
        Some(s) => s + renamed_suffix(),
        None => fallback_stem() + renamed_suffix(),
    };
    match parent {
        Some(p) => path_join(p, name),
        None => name,
    }
}

/// Where the renamed copy of `input` goes: its file name beside `input`.
pub open spec fn default_output(input: Seq<char>) -> Seq<char> {
    renamed_from_parts(path_file_stem(input), path_parent(input))
}

/// The path of the renamed copy from the stem and the parent of the input
/// path.
pub fn renamed_output_from_parts(stem: Option<String>, parent: Option<String>) -> (r: String)
    ensures
        r@ == renamed_from_parts(opt_view(stem), opt_view(parent)),
{
    let stem = match stem {
        Some(s) => s,
        None => {
            let v = vec!['r', 'e', 'n', 'a', 'm', 'e', 'd', '_', 'f', 'o', 'r', 'm'];
            assert(v@ =~= fallback_stem());
            chars_to_string(&v)
        },
    };
    let suffix_chars = vec!['_', 'r', 'e', 'n', 'a', 'm', 'e', 'd', '.', 'p', 'd', 'f'];
    assert(suffix_chars@ =~= renamed_suffix());
    let suffix = chars_to_string(&suffix_chars);
    let mut out_name = stem;
    out_name.append(suffix.as_str());
    match parent {
        Some(p) => join(p.as_str(), out_name.as_str()),
        None => out_name,
    }
}

/// The path that the renamed copy of `input` is written to when no output
/// path is given.
pub fn default_output_path(input: &str) -> (r: String)
    ensures
        r@ == default_output(input@),
{
    renamed_output_from_parts(file_stem(input), parent(input))
}

/// The usage line of the renaming tool.
pub open spec fn rename_usage() -> Seq<char> {
    seq![
        'U', 's', 'a', 'g', 'e', ':', ' ', 'r', 'e', 'n', 'a', 'm', 'e', '_', 'f', 'o', 'r', 'm', '_', 'f',
        'i', 'e', 'l', 'd', 's', ' ', '<', 'i', 'n', 'p', 'u', 't', '.', 'p', 'd', 'f', '>', ' ', '[',
        'o', 'u', 't', 'p', 'u', 't', '.', 'p', 'd', 'f', ']'
    ]
}

/// The paths that the renaming tool reads and writes, from its arguments
/// (the program name left out): the first is the input, the second the
/// output, which defaults to the renamed copy beside the input.
pub open spec fn rename_paths(args: Seq<Seq<char>>) -> Option<(Seq<char>, Seq<char>)> {
    if args.len() == 0 {
        None
    } else if args.len() == 1 {
        Some((args[0], default_output(args[0])))
    } else {
        Some((args[0], args[1]))
    }
}

/// The views of a sequence of strings.
pub open spec fn arg_views(args: Seq<String>) -> Seq<Seq<char>> {
    args.map_values(|s: String| s@)
}

/// The input and output paths of the renaming tool, or `None` when the
/// input is missing (the tool then prints its usage).
pub fn parse_rename_args(args: &Vec<String>) -> (r: Option<(String, String)>)
    ensures
        match rename_paths(arg_views(args@)) {
            Some((i, o)) => r matches Some((ri, ro)) && ri@ == i && ro@ == o,
            None => r is None,
        },
{
    if args.len() == 0 {
        return None;
    }
    let input = args[0].clone();
    let output = if args.len() >= 2 {
        args[1].clone()
    } else {
        default_output_path(input.as_str())
    };
    Some((input, output))
}

/// The usage line of the renaming tool.
pub fn rename_usage_text() -> (r: String)
    ensures
        r@ == rename_usage(),
{
    let v = vec![
        'U', 's', 'a', 'g', 'e', ':', ' ', 'r', 'e', 'n', 'a', 'm', 'e', '_', 'f', 'o', 'r', 'm', '_', 'f',
        'i', 'e', 'l', 'd', 's', ' ', '<', 'i', 'n', 'p', 'u', 't', '.', 'p', 'd', 'f', '>', ' ', '[',
        'o', 'u', 't', 'p', 'u', 't', '.', 'p', 'd', 'f', ']'
    ];
    assert(v@ =~= rename_usage());
    chars_to_string(&v)
}

/// The text of an object as the renaming tool writes it (names without a
/// slash); `DepthLimit` if arrays nest deeper than an index can count.
pub fn object_to_string(doc: &PdfDocument, object: &PdfObject) -> (r: Result<String, PdfError>)
    ensures
        text_view(r) == bounded_text(object_text(*doc, *object, false, max_depth())),
{
    object_text_with(doc, object, false, usize::MAX)
}

/// The value to store as a field's `V` entry: the object that the change
/// reaches, and the text.
pub struct FieldValue {
    pub id: ObjectId,
    pub value: String,
}

/// The views of field values.
pub open spec fn value_views(v: Seq<FieldValue>) -> Seq<(ObjectId, Seq<char>)> {
    v.map_values(|f: FieldValue| (f.id, f.value@))
}

/// The name `Tx` that marks a text field.
pub open spec fn text_field_type() -> Seq<u8> {
    seq![0x54u8, 0x78]
}

/// Whether a field dictionary's `FT` entry resolves to the name `Tx`.
pub open spec fn is_text_field(doc: PdfDocument, fd: PdfDict) -> bool {
    match dict_get(fd, key_bytes(KeyName::FT)) {
        Some(ft) => match resolve(doc, ft) {
            Ok(PdfObject::Name(n)) => n@ == text_field_type(),
            _ => false,
        },
        None => false,
    }
}

/// The kids of a field: its `Kids` entry when that resolves to an array,
/// else none.
pub open spec fn kids_of(doc: PdfDocument, fd: PdfDict) -> Seq<PdfObject> {
    match dict_get(fd, key_bytes(KeyName::Kids)) {
        Some(k) => match resolve(doc, k) {
            Ok(PdfObject::Array(a)) => a@,
            _ => Seq::empty(),
        },
        None => Seq::empty(),
    }
}

/// The values that renaming sets, in order, and the error that stops it,
/// if any.
pub type RenameRun = (Seq<(ObjectId, Seq<char>)>, Option<PdfError>);

/// A run that stops at once with `e`.
pub open spec fn stop(e: PdfError) -> Option<RenameRun> {
    Some((Seq::empty(), Some(e)))
}

/// Values set before a run.
pub open spec fn after(done: Seq<(ObjectId, Seq<char>)>, rest: Option<RenameRun>) -> Option<RenameRun> {
    match rest {
        None => None,
        Some((ups, err)) => Some((done + ups, err)),
    }
}

/// Renaming the field that `object` refers to, under the parent name
/// `prefix`, with recursion at most `fuel` deep: `None` when it would go
/// deeper; else the values set, in order, and the error that stopped it.
/// A text field gets its full name; then its kids are renamed under it.
pub open spec fn rename_spec(doc: PdfDocument, object: PdfObject, prefix: Option<Seq<char>>, fuel: nat) -> Option<
    RenameRun,
>
    decreases fuel, 0nat,
{
    if fuel == 0 {
        None
    } else {
        match reference_spec(object) {
            Err(e) => stop(e),
            Ok(id) => match object_spec(doc, id) {
                Err(e) => stop(e),
                Ok(fo) => match dict_spec(fo) {
                    Err(e) => stop(e),
                    Ok(fd) => {
                        let name: Option<Result<Option<Seq<char>>, PdfError>> = match dict_get(
                            fd,
                            key_bytes(KeyName::T),
                        ) {
                            None => Some(Ok(None)),
                            Some(t) => match object_text(doc, t, false, fuel) {
                                None => None,
                                Some(Err(e)) => Some(Err(e)),
                                Some(Ok(s)) => Some(Ok(Some(s))),
                            },
                        };
                        match name {
                            None => None,
                            Some(Err(e)) => stop(e),
                            Some(Ok(current)) => {
                                let full = full_name(prefix, current);
                                let own: Seq<(ObjectId, Seq<char>)> = if is_text_field(doc, fd) {
                                    seq![(target_spec(doc, id).unwrap(), full)]
                                } else {
                                    Seq::empty()
                                };
                                after(own, kids_spec(doc, kids_of(doc, fd), Some(full), (fuel - 1) as nat))
                            },
                        }
                    },
                },
            },
        }
    }
}

/// Renaming each field in `kids`, in order, under `prefix`, until one
/// stops with an error.
pub open spec fn kids_spec(doc: PdfDocument, kids: Seq<PdfObject>, prefix: Option<Seq<char>>, fuel: nat) -> Option<
    RenameRun,
>
    decreases fuel, kids.len(),
{
    if kids.len() == 0 {
        Some((Seq::empty(), None))
    } else {
        match rename_spec(doc, kids[0], prefix, fuel) {
            None => None,
            Some((ups, Some(e))) => Some((ups, Some(e))),
            Some((ups, None)) => after(ups, kids_spec(doc, kids.drop_first(), prefix, fuel)),
        }
    }
}

/// The result that a run ends with.
pub open spec fn run_result(err: Option<PdfError>) -> Result<(), PdfError> {
    match err {
        Some(e) => Err(e),
        None => Ok(()),
    }
}

/// Whether the field's kids are its `Kids` array.
fn kids_array<'a>(doc: &'a PdfDocument, fd: &'a PdfDict) -> (r: Option<&'a Vec<PdfObject>>)
    ensures
        match r {
            Some(a) => a@ == kids_of(*doc, *fd),
            None => kids_of(*doc, *fd) == Seq::<PdfObject>::empty(),
        },
{
    match fd.get(KeyName::Kids) {
        Ok(k) => match doc.dereference(k) {
            Ok((_, o)) => match as_array(o) {
                Ok(a) => Some(a),
                Err(_) => None,
            },
            Err(_) => None,
        },
        Err(_) => None,
    }
}

/// Whether the field is a text field.
fn text_field(doc: &PdfDocument, fd: &PdfDict) -> (r: bool)
    ensures
        r == is_text_field(*doc, *fd),
{
    match fd.get(KeyName::FT) {
        Ok(ft) => match doc.dereference(ft) {
            Ok((_, o)) => match as_name(o) {
                Some(n) => {
                    let tx = vec![0x54u8, 0x78];
                    assert(tx@ =~= text_field_type());
                    crate::pdf::bytes_eq(n, &tx)
                },
                None => false,
            },
            Err(_) => false,
        },
        Err(_) => false,
    }
}

/// The run as a caller sees it: the values set and the error, or
/// `DepthLimit` when the recursion would go deeper than the bound, with the
/// values set before kept.
pub open spec fn run_outcome(run: Option<RenameRun>, before: Seq<(ObjectId, Seq<char>)>, after_values: Seq<(ObjectId, Seq<char>)>, r: Result<(), PdfError>) -> bool {
    match run {
        Some((ups, err)) => after_values == before + ups && r == run_result(err),
        None => r == Err::<(), PdfError>(PdfError::DepthLimit) && before.is_prefix_of(after_values),
    }
}

/// Renames the field that `object` refers to, under the parent name
/// `prefix`, appending each value it sets to `out`; `fuel` bounds the depth.
pub fn rename_field_with(
    doc: &PdfDocument,
    object: &PdfObject,
    prefix: Option<String>,
    out: &mut Vec<FieldValue>,
    fuel: usize,
) -> (r: Result<(), PdfError>)
    ensures
        run_outcome(
            rename_spec(*doc, *object, opt_view(prefix), fuel as nat),
            value_views(old(out)@),
            value_views(final(out)@),
            r,
        ),
    decreases fuel,
{
    if fuel == 0 {
        return Err(PdfError::DepthLimit);
    }
    let ghost start = value_views(out@);
    let ghost pre = opt_view(prefix);
    let id = match as_reference(object) {
        Ok(id) => id,
        Err(e) => {
            assert(value_views(out@) =~= start + Seq::empty());
            return Err(e);
        },
    };
    let fo = match doc.get_object(id) {
        Ok(o) => o,
        Err(e) => {
            assert(value_views(out@) =~= start + Seq::empty());
            return Err(e);
        },
    };
    let fd = match as_dict(fo) {
        Ok(d) => d,
        Err(e) => {
            assert(value_views(out@) =~= start + Seq::empty());
            return Err(e);
        },
    };
    let current: Option<String> = match fd.get(KeyName::T) {
        Ok(t) => match object_text_with(doc, t, false, fuel) {
            Ok(s) => Some(s),
            Err(e) => {
                assert(value_views(out@) =~= start + Seq::empty());
                return Err(e);
            },
        },
        Err(_) => None,
    };
    let is_text = text_field(doc, fd);
    let kids = kids_array(doc, fd);
    let full = make_full_name(prefix, current);
    let ghost own: Seq<(ObjectId, Seq<char>)> = if is_text {
        seq![(target_spec(*doc, id).unwrap(), full@)]
    } else {
        Seq::empty()
    };
    if is_text {
        let tid = match doc.get_object_target(id) {
            Ok(t) => t,
            Err(e) => {
                return Err(e);
            },
        };
        out.push(FieldValue { id: tid, value: full.clone() });
    }
    assert(value_views(out@) =~= start + own);
    let ghost kid_seq = kids_of(*doc, *fd);
    let f: usize = fuel - 1;
    assert(rename_spec(*doc, *object, pre, fuel as nat) == after(own, kids_spec(*doc, kid_seq, Some(full@), f as nat)));
    match kids {
        None => {
            assert(kid_seq =~= Seq::<PdfObject>::empty());
            assert(value_views(out@) =~= start + (own + Seq::empty()));
            Ok(())
        },
        Some(kids) => {
            let mut i: usize = 0;
            let ghost mut added: Seq<(ObjectId, Seq<char>)> = Seq::empty();
            assert(kids@.skip(0) =~= kids@);
            assert(kids_spec(*doc, kid_seq, Some(full@), f as nat) == after(
                added,
                kids_spec(*doc, kid_seq.skip(0), Some(full@), f as nat),
            )) by {
                if let Some((u, e)) = kids_spec(*doc, kid_seq, Some(full@), f as nat) {
                    assert(added + u =~= u);
                }
            }
            while i < kids.len()
                invariant
                    0 <= i <= kids@.len(),
                    f == fuel - 1,
                    pre == opt_view(prefix),
                    kids@ == kid_seq,
                    start == value_views(old(out)@),
                    rename_spec(*doc, *object, pre, fuel as nat) == after(
                        own,
                        kids_spec(*doc, kid_seq, Some(full@), f as nat),
                    ),
                    kids_spec(*doc, kid_seq, Some(full@), f as nat) == after(
                        added,
                        kids_spec(*doc, kid_seq.skip(i as int), Some(full@), f as nat),
                    ),
                    value_views(out@) == start + own + added,
                decreases kids@.len() - i,
            {
                let ghost rest = kid_seq.skip(i as int);
                assert(rest[0] == kids@[i as int]);
                assert(rest.drop_first() =~= kid_seq.skip(i + 1));
                let ghost before = value_views(out@);
                let res = rename_field_with(doc, &kids[i], Some(full.clone()), out, f);
                let ghost kid_run = rename_spec(*doc, kids@[i as int], Some(full@), f as nat);
                assert(kids_spec(*doc, rest, Some(full@), f as nat) == match kid_run {
                    None => None,
                    Some((u, Some(e))) => Some((u, Some(e))),
                    Some((u, None)) => after(u, kids_spec(*doc, kid_seq.skip(i + 1), Some(full@), f as nat)),
                });
                match res {
                    Ok(()) => {},
                    Err(e) => {
                        proof {
                            let whole = kids_spec(*doc, kid_seq, Some(full@), f as nat);
                            match kid_run {
                                None => {
                                    assert(whole is None);
                                    assert(rename_spec(*doc, *object, pre, fuel as nat) is None);
                                },
                                Some((u, err)) => {
                                    assert(err is Some);
                                    assert(whole == Some((added + u, err)));
                                    assert(start + own + added + u =~= start + (own + (added + u)));
                                    assert(rename_spec(*doc, *object, pre, fuel as nat) == Some(
                                        (own + (added + u), err),
                                    ));
                                },
                            }
                        }
                        return Err(e);
                    },
                }
                proof {
                    let u = kid_run.unwrap().0;
                    if let Some((ls, _)) = kids_spec(*doc, kid_seq.skip(i + 1), Some(full@), f as nat) {
                        assert(added + (u + ls) =~= (added + u) + ls);
                    }
                    added = added + u;
                    assert(value_views(out@) =~= start + own + added);
                }
                i = i + 1;
            }
            assert(kid_seq.skip(i as int) =~= Seq::<PdfObject>::empty());
            assert(value_views(out@) =~= start + (own + (added + Seq::empty())));
            Ok(())
        },
    }
}

/// More fuel changes no run that less fuel already gave.
pub proof fn lemma_rename_fuel(doc: PdfDocument, object: PdfObject, prefix: Option<Seq<char>>, f: nat, g: nat)
    requires
        f <= g,
        rename_spec(doc, object, prefix, f) is Some,
    ensures
        rename_spec(doc, object, prefix, g) == rename_spec(doc, object, prefix, f),
    decreases f, 0nat,
{
    if let Ok(id) = reference_spec(object) {
        if let Ok(fo) = object_spec(doc, id) {
            if let Ok(fd) = dict_spec(fo) {
                if let Some(t) = dict_get(fd, key_bytes(KeyName::T)) {
                    crate::render::lemma_object_text_fuel(doc, t, false, f, g);
                }
                let name: Option<Result<Option<Seq<char>>, PdfError>> = match dict_get(
                    fd,
                    key_bytes(KeyName::T),
                ) {
                    None => Some(Ok(None)),
                    Some(t) => match object_text(doc, t, false, f) {
                        None => None,
                        Some(Err(e)) => Some(Err(e)),
                        Some(Ok(s)) => Some(Ok(Some(s))),
                    },
                };
                if let Some(Ok(current)) = name {
                    let full = full_name(prefix, current);
                    lemma_kids_fuel(doc, kids_of(doc, fd), Some(full), (f - 1) as nat, (g - 1) as nat);
                }
            }
        }
    }
}

/// More fuel changes no run that less fuel already gave.
pub proof fn lemma_kids_fuel(doc: PdfDocument, kids: Seq<PdfObject>, prefix: Option<Seq<char>>, f: nat, g: nat)
    requires
        f <= g,
        kids_spec(doc, kids, prefix, f) is Some,
    ensures
        kids_spec(doc, kids, prefix, g) == kids_spec(doc, kids, prefix, f),
    decreases f, kids.len(),
{
    if kids.len() > 0 {
        lemma_rename_fuel(doc, kids[0], prefix, f, g);
        if let Some((_, None)) = rename_spec(doc, kids[0], prefix, f) {
            lemma_kids_fuel(doc, kids.drop_first(), prefix, f, g);
        }
    }
}

/// Renames the field that `object` refers to, under the parent name
/// `prefix`: a text field's value becomes its full name, appended to `out`
/// with the object that it goes to; then its kids are renamed under that
/// name. Stops at the first error, keeping the values set before it.
pub fn rename_field(doc: &PdfDocument, object: &PdfObject, prefix: Option<String>, out: &mut Vec<FieldValue>) -> (r:
    Result<(), PdfError>)
    ensures
        run_outcome(
            rename_spec(*doc, *object, opt_view(prefix), max_depth()),
            value_views(old(out)@),
            value_views(final(out)@),
            r,
        ),
{
    rename_field_with(doc, object, prefix, out, usize::MAX)
}

/// The top-level fields of a document's interactive form: the catalog's
/// `AcroForm` dictionary's `Fields` array, each step resolved.
pub open spec fn form_fields(doc: PdfDocument) -> Result<Seq<PdfObject>, PdfError> {
    match catalog_spec(doc) {
        Err(e) => Err(e),
        Ok(cat) => match dict_get(cat, key_bytes(KeyName::AcroForm)) {
            None => Err(PdfError::MissingAcroForm),
            Some(a) => match resolve(doc, a) {
                Err(e) => Err(e),
                Ok(ao) => match dict_spec(ao) {
                    Err(e) => Err(e),
                    Ok(ad) => match dict_get(ad, key_bytes(KeyName::Fields)) {
                        None => Err(PdfError::MissingFields),
                        Some(fl) => match resolve(doc, fl) {
                            Err(e) => Err(e),
                            Ok(fo) => array_spec(fo),
                        },
                    },
                },
            },
        },
    }
}

/// Renaming every field of a document's form, with recursion at most
/// `fuel` deep.
pub open spec fn document_renames(doc: PdfDocument, fuel: nat) -> Option<RenameRun> {
    match form_fields(doc) {
        Err(e) => stop(e),
        Ok(fields) => kids_spec(doc, fields, None, fuel),
    }
}

/// Renames every field of the document's form: the values to store, each
/// text field's full name, in the order the fields are visited; or the
/// first error.
pub fn rename_form_fields(doc: &PdfDocument) -> (r: Result<Vec<FieldValue>, PdfError>)
    ensures
        match document_renames(*doc, max_depth()) {
            Some((ups, Some(e))) => r == Err::<Vec<FieldValue>, PdfError>(e),
            Some((ups, None)) => r matches Ok(v) && value_views(v@) == ups,
            None => r == Err::<Vec<FieldValue>, PdfError>(PdfError::DepthLimit),
        },
{
    let cat = match doc.catalog() {
        Ok(c) => c,
        Err(e) => {
            return Err(e);
        },
    };
    let acro = match cat.get(KeyName::AcroForm) {
        Ok(a) => a,
        Err(_) => {
            return Err(PdfError::MissingAcroForm);
        },
    };
    let acro = match doc.dereference(acro) {
        Ok((_, o)) => o,
        Err(e) => {
            return Err(e);
        },
    };
    let acro = match as_dict(acro) {
        Ok(d) => d,
        Err(e) => {
            return Err(e);
        },
    };
    let fields = match acro.get(KeyName::Fields) {
        Ok(f) => f,
        Err(_) => {
            return Err(PdfError::MissingFields);
        },
    };
    let fields = match doc.dereference(fields) {
        Ok((_, o)) => o,
        Err(e) => {
            return Err(e);
        },
    };
    let fields = match as_array(fields) {
        Ok(a) => a,
        Err(e) => {
            return Err(e);
        },
    };
    let ghost fs = fields@;
    let ghost fuel = max_depth();
    let mut out: Vec<FieldValue> = Vec::new();
    let mut i: usize = 0;
    let ghost mut added: Seq<(ObjectId, Seq<char>)> = Seq::empty();
    assert(fs.skip(0) =~= fs);
    assert(value_views(out@) =~= added);
    assert(kids_spec(*doc, fs, None, fuel) == after(added, kids_spec(*doc, fs.skip(0), None, fuel))) by {
        if let Some((u, e)) = kids_spec(*doc, fs, None, fuel) {
            assert(added + u =~= u);
        }
    }
    while i < fields.len()
        invariant
            0 <= i <= fields@.len(),
            fs == fields@,
            fuel == max_depth(),
            document_renames(*doc, fuel) == kids_spec(*doc, fs, None, fuel),
            kids_spec(*doc, fs, None, fuel) == after(added, kids_spec(*doc, fs.skip(i as int), None, fuel)),
            value_views(out@) == added,
        decreases fields@.len() - i,
    {
        let ghost rest = fs.skip(i as int);
        assert(rest[0] == fields@[i as int]);
        assert(rest.drop_first() =~= fs.skip(i + 1));
        let ghost before = value_views(out@);
        let res = rename_field_with(doc, &fields[i], None, &mut out, usize::MAX);
        let ghost kid_run = rename_spec(*doc, fields@[i as int], None, fuel);
        assert(kids_spec(*doc, rest, None, fuel) == match kid_run {
            None => None,
            Some((u, Some(e))) => Some((u, Some(e))),
            Some((u, None)) => after(u, kids_spec(*doc, fs.skip(i + 1), None, fuel)),
        });
        match res {
            Ok(()) => {},
            Err(e) => {
                return Err(e);
            },
        }
        proof {
            let u = kid_run.unwrap().0;
            if let Some((ls, _)) = kids_spec(*doc, fs.skip(i + 1), None, fuel) {
                assert(added + (u + ls) =~= (added + u) + ls);
            }
            added = added + u;
        }
        i = i + 1;
    }
    assert(fs.skip(i as int) =~= Seq::<PdfObject>::empty());
    assert(added + Seq::<(ObjectId, Seq<char>)>::empty() =~= added);
    Ok(out)
}

/// Whether every value in `ups` begins with `p`.
pub open spec fn all_extend(ups: Seq<(ObjectId, Seq<char>)>, p: Seq<char>) -> bool {
    forall|i: int| 0 <= i < ups.len() ==> p.is_prefix_of(#[trigger] ups[i].1)
}

proof fn lemma_all_extend_concat(a: Seq<(ObjectId, Seq<char>)>, b: Seq<(ObjectId, Seq<char>)>, p: Seq<char>)
    requires
        all_extend(a, p),
        all_extend(b, p),
    ensures
        all_extend(a + b, p),
{
    assert forall|i: int| 0 <= i < (a + b).len() implies p.is_prefix_of(#[trigger] (a + b)[i].1) by {
        if i < a.len() {
            assert((a + b)[i] == a[i]);
        } else {
            assert((a + b)[i] == b[i - a.len()]);
        }
    }
}

proof fn lemma_prefix_trans(p: Seq<char>, q: Seq<char>, r: Seq<char>)
    requires
        p.is_prefix_of(q),
        q.is_prefix_of(r),
    ensures
        p.is_prefix_of(r),
{
    assert forall|i: int| 0 <= i < p.len() implies p[i] == r[i] by {
        assert(p[i] == q[i]);
    }
}

/// A kid's full name extends its parent's: renaming under the parent name
/// `p` sets only values that begin with `p`.
pub proof fn lemma_names_extend_prefix(doc: PdfDocument, object: PdfObject, p: Seq<char>, fuel: nat)
    requires
        rename_spec(doc, object, Some(p), fuel) is Some,
    ensures
        all_extend(rename_spec(doc, object, Some(p), fuel).unwrap().0, p),
    decreases fuel, 0nat,
{
    if let Ok(id) = reference_spec(object) {
        if let Ok(fo) = object_spec(doc, id) {
            if let Ok(fd) = dict_spec(fo) {
                let name: Option<Result<Option<Seq<char>>, PdfError>> = match dict_get(
                    fd,
                    key_bytes(KeyName::T),
                ) {
                    None => Some(Ok(None)),
                    Some(t) => match object_text(doc, t, false, fuel) {
                        None => None,
                        Some(Err(e)) => Some(Err(e)),
                        Some(Ok(s)) => Some(Ok(Some(s))),
                    },
                };
                if let Some(Ok(current)) = name {
                    let full = full_name(Some(p), current);
                    assert(p.is_prefix_of(full)) by {
                        if let Some(c) = current {
                            assert(full == p + seq!['.'] + c);
                            assert forall|i: int| 0 <= i < p.len() implies p[i] == full[i] by {
                                assert((p + seq!['.'] + c)[i] == p[i]);
                            }
                        }
                    }
                    let own: Seq<(ObjectId, Seq<char>)> = if is_text_field(doc, fd) {
                        seq![(target_spec(doc, id).unwrap(), full)]
                    } else {
                        Seq::empty()
                    };
                    assert(all_extend(own, p));
                    let kids = kids_of(doc, fd);
                    lemma_kids_extend_prefix(doc, kids, full, (fuel - 1) as nat);
                    let ups = kids_spec(doc, kids, Some(full), (fuel - 1) as nat).unwrap().0;
                    assert forall|i: int| 0 <= i < ups.len() implies p.is_prefix_of(#[trigger] ups[i].1) by {
                        lemma_prefix_trans(p, full, ups[i].1);
                    }
                    lemma_all_extend_concat(own, ups, p);
                }
            }
        }
    }
}

/// Renaming kids under the name `p` sets only values that begin with `p`.
pub proof fn lemma_kids_extend_prefix(doc: PdfDocument, kids: Seq<PdfObject>, p: Seq<char>, fuel: nat)
    requires
        kids_spec(doc, kids, Some(p), fuel) is Some,
    ensures
        all_extend(kids_spec(doc, kids, Some(p), fuel).unwrap().0, p),
    decreases fuel, kids.len(),
{
    if kids.len() > 0 {
        lemma_names_extend_prefix(doc, kids[0], p, fuel);
        if let Some((ups, None)) = rename_spec(doc, kids[0], Some(p), fuel) {
            lemma_kids_extend_prefix(doc, kids.drop_first(), p, fuel);
            lemma_all_extend_concat(ups, kids_spec(doc, kids.drop_first(), Some(p), fuel).unwrap().0, p);
        }
    }
}

/// The keys that renaming reads are not `V`.
proof fn lemma_read_keys_not_value()
    ensures
        key_bytes(KeyName::T) != key_bytes(KeyName::V),
        key_bytes(KeyName::FT) != key_bytes(KeyName::V),
        key_bytes(KeyName::Kids) != key_bytes(KeyName::V),
        key_bytes(KeyName::AcroForm) != key_bytes(KeyName::V),
        key_bytes(KeyName::Fields) != key_bytes(KeyName::V),
        key_bytes(KeyName::Root) != key_bytes(KeyName::V),
{
    assert(key_bytes(KeyName::T)[0] != key_bytes(KeyName::V)[0]);
    assert(key_bytes(KeyName::FT).len() != key_bytes(KeyName::V).len());
    assert(key_bytes(KeyName::Kids).len() != key_bytes(KeyName::V).len());
    assert(key_bytes(KeyName::AcroForm).len() != key_bytes(KeyName::V).len());
    assert(key_bytes(KeyName::Fields).len() != key_bytes(KeyName::V).len());
    assert(key_bytes(KeyName::Root).len() != key_bytes(KeyName::V).len());
}

/// Two field dictionaries that agree but for `V` read the same.
proof fn lemma_field_reads_agree(d1: PdfDocument, d2: PdfDocument, fd1: PdfDict, fd2: PdfDict)
    requires
        agree_except_values(d1, d2),
        same_except_value(PdfObject::Dictionary(fd1), PdfObject::Dictionary(fd2)),
    ensures
        dict_get(fd1, key_bytes(KeyName::T)) == dict_get(fd2, key_bytes(KeyName::T)),
        is_text_field(d1, fd1) == is_text_field(d2, fd2),
        kids_of(d1, fd1) == kids_of(d2, fd2),
{
    lemma_read_keys_not_value();
    if let Some(ft) = dict_get(fd1, key_bytes(KeyName::FT)) {
        lemma_deref_agree(d1, d2, ft, None, 0);
    }
    if let Some(k) = dict_get(fd1, key_bytes(KeyName::Kids)) {
        lemma_deref_agree(d1, d2, k, None, 0);
    }
}

/// Renaming a field never reads a `V` entry.
pub proof fn lemma_rename_agree(
    d1: PdfDocument,
    d2: PdfDocument,
    object: PdfObject,
    prefix: Option<Seq<char>>,
    fuel: nat,
)
    requires
        agree_except_values(d1, d2),
    ensures
        rename_spec(d1, object, prefix, fuel) == rename_spec(d2, object, prefix, fuel),
    decreases fuel, 0nat,
{
    if fuel > 0 {
        if let Ok(id) = reference_spec(object) {
            lemma_object_spec_agree(d1, d2, id);
            match (object_spec(d1, id), object_spec(d2, id)) {
                (Ok(o1), Ok(o2)) => {
                    if let (PdfObject::Dictionary(fd1), PdfObject::Dictionary(fd2)) = (o1, o2) {
                        lemma_field_reads_agree(d1, d2, fd1, fd2);
                        if let Some(t) = dict_get(fd1, key_bytes(KeyName::T)) {
                            crate::render::lemma_text_agree(d1, d2, t, false, fuel);
                        }
                        let name: Option<Result<Option<Seq<char>>, PdfError>> = match dict_get(
                            fd1,
                            key_bytes(KeyName::T),
                        ) {
                            None => Some(Ok(None)),
                            Some(t) => match object_text(d1, t, false, fuel) {
                                None => None,
                                Some(Err(e)) => Some(Err(e)),
                                Some(Ok(s)) => Some(Ok(Some(s))),
                            },
                        };
                        if let Some(Ok(current)) = name {
                            let full = full_name(prefix, current);
                            lemma_kids_agree(d1, d2, kids_of(d1, fd1), Some(full), (fuel - 1) as nat);
                        }
                    }
                },
                _ => {},
            }
        }
    }
}

/// Renaming kids never reads a `V` entry.
pub proof fn lemma_kids_agree(
    d1: PdfDocument,
    d2: PdfDocument,
    kids: Seq<PdfObject>,
    prefix: Option<Seq<char>>,
    fuel: nat,
)
    requires
        agree_except_values(d1, d2),
    ensures
        kids_spec(d1, kids, prefix, fuel) == kids_spec(d2, kids, prefix, fuel),
    decreases fuel, kids.len(),
{
    if kids.len() > 0 {
        lemma_rename_agree(d1, d2, kids[0], prefix, fuel);
        lemma_kids_agree(d1, d2, kids.drop_first(), prefix, fuel);
    }
}

/// Finding the form's fields never reads a `V` entry.
pub proof fn lemma_form_fields_agree(d1: PdfDocument, d2: PdfDocument)
    requires
        agree_except_values(d1, d2),
    ensures
        form_fields(d1) == form_fields(d2),
{
    lemma_read_keys_not_value();
    assert(dict_get(d1.trailer, key_bytes(KeyName::Root)) == dict_get(d2.trailer, key_bytes(KeyName::Root)));
    if let Some(r) = dict_get(d1.trailer, key_bytes(KeyName::Root)) {
        if let Ok(id) = reference_spec(r) {
            lemma_object_spec_agree(d1, d2, id);
            if let (Ok(c1), Ok(c2)) = (catalog_spec(d1), catalog_spec(d2)) {
                assert(dict_get(c1, key_bytes(KeyName::AcroForm)) == dict_get(c2, key_bytes(KeyName::AcroForm)));
                if let Some(a) = dict_get(c1, key_bytes(KeyName::AcroForm)) {
                    lemma_deref_agree(d1, d2, a, None, 0);
                    if let (Ok(ao1), Ok(ao2)) = (resolve(d1, a), resolve(d2, a)) {
                        if let (Ok(ad1), Ok(ad2)) = (dict_spec(ao1), dict_spec(ao2)) {
                            assert(dict_get(ad1, key_bytes(KeyName::Fields)) == dict_get(
                                ad2,
                                key_bytes(KeyName::Fields),
                            ));
                            if let Some(fl) = dict_get(ad1, key_bytes(KeyName::Fields)) {
                                lemma_deref_agree(d1, d2, fl, None, 0);
                            }
                        }
                    }
                }
            }
        }
    }
}

/// Renaming never reads a field's value: two documents that differ only in
/// the `V` entries of their dictionaries get the same values, in the same
/// order, and the same error; so a form whose values were stored renames
/// to the same values again.
pub proof fn lemma_renaming_ignores_values(d1: PdfDocument, d2: PdfDocument, fuel: nat)
    requires
        agree_except_values(d1, d2),
    ensures
        document_renames(d1, fuel) == document_renames(d2, fuel),
{
    lemma_form_fields_agree(d1, d2);
    if let Ok(fields) = form_fields(d1) {
        lemma_kids_agree(d1, d2, fields, None, fuel);
    }
}

/// The text that the values `ups` store last at `id`, if any.
pub open spec fn last_value(ups: Seq<(ObjectId, Seq<char>)>, id: ObjectId) -> Option<Seq<char>>
    decreases ups.len(),
{
    if ups.len() == 0 {
        None
    } else if ups.last().0 == id {
        Some(ups.last().1)
    } else {
        last_value(ups.drop_last(), id)
    }
}

/// The `V` entry of the object at `id`, when that object is a dictionary.
pub open spec fn value_entry(d: PdfDocument, id: ObjectId) -> Option<PdfObject> {
    match doc_get(d, id) {
        Some(PdfObject::Dictionary(fd)) => dict_get(fd, key_bytes(KeyName::V)),
        _ => None,
    }
}

/// Whether an entry is a string of the UTF-8 bytes of `t`, as a literal
/// string of that text is stored.
pub open spec fn holds_text(v: Option<PdfObject>, t: Seq<char>) -> bool {
    v matches Some(PdfObject::Str(b)) && b@ == vstd::utf8::encode_utf8(t)
}

/// Whether `after` is `before` with the values `ups` stored: the documents
/// differ only in `V` entries; the object at each id that `ups` names is a
/// dictionary whose `V` holds the last text stored there; every other `V`
/// entry is kept.
pub open spec fn values_stored(before: PdfDocument, after: PdfDocument, ups: Seq<(ObjectId, Seq<char>)>) -> bool {
    &&& agree_except_values(before, after)
    &&& forall|id: ObjectId| #![trigger value_entry(after, id)]
        match last_value(ups, id) {
            Some(t) => holds_text(value_entry(after, id), t),
            None => value_entry(after, id) == value_entry(before, id),
        }
}

/// Documents that agree but for `V` entries with a third agree with it.
proof fn lemma_agree_trans(d0: PdfDocument, d1: PdfDocument, d2: PdfDocument)
    requires
        agree_except_values(d0, d1),
        agree_except_values(d1, d2),
    ensures
        agree_except_values(d0, d2),
{
    assert forall|k: Seq<u8>| #[trigger] dict_get(d0.trailer, k) == dict_get(d2.trailer, k) by {
        assert(dict_get(d0.trailer, k) == dict_get(d1.trailer, k));
        assert(dict_get(d1.trailer, k) == dict_get(d2.trailer, k));
    }
    assert forall|id: ObjectId|
        match (#[trigger] doc_get(d0, id), doc_get(d2, id)) {
            (None, None) => true,
            (Some(a), Some(c)) => same_except_value(a, c),
            _ => false,
        } by {
        let b = doc_get(d1, id);
        assert(match (doc_get(d0, id), b) {
            (None, None) => true,
            (Some(x), Some(y)) => same_except_value(x, y),
            _ => false,
        });
        assert(match (b, doc_get(d2, id)) {
            (None, None) => true,
            (Some(x), Some(y)) => same_except_value(x, y),
            _ => false,
        });
        if let (Some(a), Some(bb), Some(c)) = (doc_get(d0, id), b, doc_get(d2, id)) {
            if a != bb && bb != c {
                assert forall|k: Seq<u8>| k != key_bytes(KeyName::V) implies #[trigger] dict_get(
                    a->Dictionary_0,
                    k,
                ) == dict_get(c->Dictionary_0, k) by {
                    assert(dict_get(a->Dictionary_0, k) == dict_get(bb->Dictionary_0, k));
                    assert(dict_get(bb->Dictionary_0, k) == dict_get(c->Dictionary_0, k));
                }
            }
        }
    }
}

/// Renaming twice is renaming once: after the values that renaming gives
/// are stored, renaming again gives the same values and the same error, and
/// storing those again leaves a document that is the first one with the
/// same values stored.
pub proof fn lemma_renaming_twice(d0: PdfDocument, d1: PdfDocument, d2: PdfDocument, fuel: nat)
    requires
        document_renames(d0, fuel) is Some,
        values_stored(d0, d1, document_renames(d0, fuel).unwrap().0),
        values_stored(d1, d2, document_renames(d1, fuel).unwrap().0),
    ensures
        document_renames(d1, fuel) == document_renames(d0, fuel),
        values_stored(d0, d2, document_renames(d0, fuel).unwrap().0),
{
    lemma_renaming_ignores_values(d0, d1, fuel);
    lemma_agree_trans(d0, d1, d2);
    let ups = document_renames(d0, fuel).unwrap().0;
    assert forall|id: ObjectId| #![trigger value_entry(d2, id)]
        match last_value(ups, id) {
            Some(t) => holds_text(value_entry(d2, id), t),
            None => value_entry(d2, id) == value_entry(d0, id),
        } by {
        assert(value_entry(d1, id) == value_entry(d1, id));
    }
}

/// The renaming tool writes where it is told: with two or more arguments
/// the output path is the second argument; with one, the renamed copy goes
/// beside the input; with none there are no paths. The input is always the
/// first argument.
pub proof fn lemma_rename_paths_by_count(args: Seq<Seq<char>>)
    ensures
        args.len() >= 2 ==> rename_paths(args) == Some((args[0], args[1])),
        args.len() == 1 ==> rename_paths(args) == Some((args[0], default_output(args[0]))),
        args.len() == 0 ==> rename_paths(args) is None,
{
}

/// Whether the object stored under `id` is a text field: a dictionary
/// whose `FT` entry, followed through references, is the name `Tx`.
pub open spec fn stores_text_field(doc: PdfDocument, id: ObjectId) -> bool {
    match doc_get(doc, id) {
        Some(PdfObject::Dictionary(fd)) => match dict_get(fd, key_bytes(KeyName::FT)) {
            Some(ft) => resolve(doc, ft) matches Ok(PdfObject::Name(n)) && n@ == seq![0x54u8, 0x78u8],
            None => false,
        },
        _ => false,
    }
}

/// Whether every value in `ups` goes to a text field of `doc`.
pub open spec fn all_to_text_fields(doc: PdfDocument, ups: Seq<(ObjectId, Seq<char>)>) -> bool {
    forall|i: int| 0 <= i < ups.len() ==> stores_text_field(doc, #[trigger] ups[i].0)
}

/// Following references ends either where it started or at the object
/// stored under the last id followed.
proof fn lemma_deref_last(doc: PdfDocument, obj: PdfObject, last: Option<ObjectId>, hops: nat)
    ensures
        deref_from(doc, obj, last, hops) matches Ok((l, o)) ==> (l == last && o == obj) || (l matches Some(
            t,
        ) && doc_get(doc, t) == Some(o)),
    decreases deref_limit() - hops,
{
    if let PdfObject::Reference(id) = obj {
        if let Some(next) = doc_get(doc, id) {
            if hops + 1 <= deref_limit() {
                lemma_deref_last(doc, next, Some(id), hops + 1);
            }
        }
    }
}

/// The object reached from `id` is the one stored under its target.
proof fn lemma_target_holds_object(doc: PdfDocument, id: ObjectId)
    ensures
        target_spec(doc, id) is Ok && object_spec(doc, id) is Ok ==> doc_get(doc, target_spec(doc, id)->Ok_0)
            == Some(object_spec(doc, id)->Ok_0),
{
    if let Some(x) = doc_get(doc, id) {
        lemma_deref_last(doc, x, None, 0);
    }
}

proof fn lemma_all_to_text_concat(doc: PdfDocument, a: Seq<(ObjectId, Seq<char>)>, b: Seq<(ObjectId, Seq<char>)>)
    requires
        all_to_text_fields(doc, a),
        all_to_text_fields(doc, b),
    ensures
        all_to_text_fields(doc, a + b),
{
    assert forall|i: int| 0 <= i < (a + b).len() implies stores_text_field(doc, #[trigger] (a + b)[i].0) by {
        if i < a.len() {
            assert((a + b)[i] == a[i]);
        } else {
            assert((a + b)[i] == b[i - a.len()]);
        }
    }
}

/// Renaming sets values of text fields only: every value that renaming a
/// field gives goes to an object that is a dictionary whose `FT` is `Tx`;
/// a choice field, a button or a signature gets none.
pub proof fn lemma_values_go_to_text_fields(doc: PdfDocument, object: PdfObject, prefix: Option<Seq<char>>, fuel: nat)
    requires
        rename_spec(doc, object, prefix, fuel) is Some,
    ensures
        all_to_text_fields(doc, rename_spec(doc, object, prefix, fuel).unwrap().0),
    decreases fuel, 0nat,
{
    if let Ok(id) = reference_spec(object) {
        if let Ok(fo) = object_spec(doc, id) {
            if let Ok(fd) = dict_spec(fo) {
                let name: Option<Result<Option<Seq<char>>, PdfError>> = match dict_get(
                    fd,
                    key_bytes(KeyName::T),
                ) {
                    None => Some(Ok(None)),
                    Some(t) => match object_text(doc, t, false, fuel) {
                        None => None,
                        Some(Err(e)) => Some(Err(e)),
                        Some(Ok(s)) => Some(Ok(Some(s))),
                    },
                };
                if let Some(Ok(current)) = name {
                    let full = full_name(prefix, current);
                    let own: Seq<(ObjectId, Seq<char>)> = if is_text_field(doc, fd) {
                        seq![(target_spec(doc, id).unwrap(), full)]
                    } else {
                        Seq::empty()
                    };
                    if is_text_field(doc, fd) {
                        lemma_target_holds_object(doc, id);
                        assert(stores_text_field(doc, own[0].0));
                    }
                    assert(all_to_text_fields(doc, own));
                    let kids = kids_of(doc, fd);
                    lemma_kids_go_to_text_fields(doc, kids, Some(full), (fuel - 1) as nat);
                    lemma_all_to_text_concat(doc, own, kids_spec(doc, kids, Some(full), (fuel - 1) as nat).unwrap().0);
                }
            }
        }
    }
}

/// Renaming kids sets values of text fields only.
pub proof fn lemma_kids_go_to_text_fields(doc: PdfDocument, kids: Seq<PdfObject>, prefix: Option<Seq<char>>, fuel: nat)
    requires
        kids_spec(doc, kids, prefix, fuel) is Some,
    ensures
        all_to_text_fields(doc, kids_spec(doc, kids, prefix, fuel).unwrap().0),
    decreases fuel, kids.len(),
{
    if kids.len() > 0 {
        lemma_values_go_to_text_fields(doc, kids[0], prefix, fuel);
        if let Some((ups, None)) = rename_spec(doc, kids[0], prefix, fuel) {
            lemma_kids_go_to_text_fields(doc, kids.drop_first(), prefix, fuel);
            lemma_all_to_text_concat(doc, ups, kids_spec(doc, kids.drop_first(), prefix, fuel).unwrap().0);
        }
    }
}

/// Renaming a form stores values in its text fields only.
pub proof fn lemma_form_values_go_to_text_fields(doc: PdfDocument, fuel: nat)
    requires
        document_renames(doc, fuel) is Some,
    ensures
        all_to_text_fields(doc, document_renames(doc, fuel).unwrap().0),
{
    if let Ok(fields) = form_fields(doc) {
        lemma_kids_go_to_text_fields(doc, fields, None, fuel);
    }
}

} // verus!

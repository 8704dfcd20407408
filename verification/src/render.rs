//! How the tools write an object as text: scalars as their values, arrays
//! as their items joined by ", ", following references on the way.

use vstd::prelude::*;
use crate::pdf::{
    PdfDocument, PdfError, PdfObject, agree_except_values, dereference, lemma_deref_agree, lemma_dereference_result,
    resolve,
};
use crate::text::{
    bool_text, bool_to_text, chars_to_string, i64_text, int_text, join, join_strings, lossy_text,
    string_views, utf8_lossy,
};

verus! {

/// The text of an object that is neither an array nor a reference. Names
/// get a leading `/` when `slash` holds.
pub open spec fn scalar_text(o: PdfObject, slash: bool) -> Seq<char> {
    match o {
        PdfObject::Null => seq!['n', 'u', 'l', 'l'],
        PdfObject::Boolean(b) => bool_text(b),
        PdfObject::Integer(i) => int_text(i as int),
        PdfObject::Real(t) => t@,
        PdfObject::Name(n) => if slash {
            seq!['/'] + utf8_lossy(n@)
        } else {
            utf8_lossy(n@)
        },
        PdfObject::Str(b) => utf8_lossy(b@),
        PdfObject::Dictionary(_) => seq!['<', 'd', 'i', 'c', 't', 'i', 'o', 'n', 'a', 'r', 'y', '>'],
        PdfObject::Stream => seq!['<', 's', 't', 'r', 'e', 'a', 'm', '>'],
        PdfObject::Array(_) => Seq::empty(),
        PdfObject::Reference(_) => Seq::empty(),
    }
}

/// The separator between the items of an array.
pub open spec fn item_sep() -> Seq<char> {
    seq![',', ' ']
}

/// The text of `obj` when the recursion into arrays goes at most `fuel`
/// deep: `None` when it would go deeper, else the text or the first error
/// met, in the order the items come.
pub open spec fn object_text(doc: PdfDocument, obj: PdfObject, slash: bool, fuel: nat) -> Option<
    Result<Seq<char>, PdfError>,
>
    decreases fuel, 0nat,
{
    if fuel == 0 {
        None
    } else {
        match resolve(doc, obj) {
            Err(e) => Some(Err(e)),
            Ok(PdfObject::Array(items)) => match items_text(doc, items@, slash, (fuel - 1) as nat) {
                None => None,
                Some(Err(e)) => Some(Err(e)),
                Some(Ok(parts)) => Some(Ok(join(parts, item_sep()))),
            },
            Ok(o) => Some(Ok(scalar_text(o, slash))),
        }
    }
}

/// The texts of the items, in order, or the first error met.
pub open spec fn items_text(doc: PdfDocument, items: Seq<PdfObject>, slash: bool, fuel: nat) -> Option<
    Result<Seq<Seq<char>>, PdfError>,
>
    decreases fuel, items.len(),
{
    if items.len() == 0 {
        Some(Ok(Seq::empty()))
    } else {
        match object_text(doc, items[0], slash, fuel) {
            None => None,
            Some(Err(e)) => Some(Err(e)),
            Some(Ok(t)) => match items_text(doc, items.drop_first(), slash, fuel) {
                None => None,
                Some(Err(e)) => Some(Err(e)),
                Some(Ok(ts)) => Some(Ok(seq![t] + ts)),
            },
        }
    }
}

/// Texts already made, before the result for the remaining items.
pub open spec fn prepend_parts(
    done: Seq<Seq<char>>,
    rest: Option<Result<Seq<Seq<char>>, PdfError>>,
) -> Option<Result<Seq<Seq<char>>, PdfError>> {
    match rest {
        Some(Ok(ts)) => Some(Ok(done + ts)),
        other => other,
    }
}

/// The view of a text result.
pub open spec fn text_view(r: Result<String, PdfError>) -> Result<Seq<char>, PdfError> {
    match r {
        Ok(s) => Ok(s@),
        Err(e) => Err(e),
    }
}

/// More fuel changes no result that less fuel already gave.
pub proof fn lemma_object_text_fuel(doc: PdfDocument, obj: PdfObject, slash: bool, f: nat, g: nat)
    requires
        f <= g,
        object_text(doc, obj, slash, f) is Some,
    ensures
        object_text(doc, obj, slash, g) == object_text(doc, obj, slash, f),
    decreases f, 0nat,
{
    if let Ok(PdfObject::Array(items)) = resolve(doc, obj) {
        lemma_items_text_fuel(doc, items@, slash, (f - 1) as nat, (g - 1) as nat);
    }
}

/// More fuel changes no result that less fuel already gave.
pub proof fn lemma_items_text_fuel(doc: PdfDocument, items: Seq<PdfObject>, slash: bool, f: nat, g: nat)
    requires
        f <= g,
        items_text(doc, items, slash, f) is Some,
    ensures
        items_text(doc, items, slash, g) == items_text(doc, items, slash, f),
    decreases f, items.len(),
{
    if items.len() > 0 {
        lemma_object_text_fuel(doc, items[0], slash, f, g);
        if let Some(Ok(_)) = object_text(doc, items[0], slash, f) {
            lemma_items_text_fuel(doc, items.drop_first(), slash, f, g);
        }
    }
}

/// The depth bound of the recursions: as deep as an index can count.
pub open spec fn max_depth() -> nat {
    usize::MAX as nat
}

/// A text result as seen by a caller: the text or error when the
/// recursion stays within the bound, else `DepthLimit`.
pub open spec fn bounded_text(r: Option<Result<Seq<char>, PdfError>>) -> Result<Seq<char>, PdfError> {
    match r {
        Some(res) => res,
        None => Err(PdfError::DepthLimit),
    }
}

/// A string of the given characters.
fn literal(v: Vec<char>) -> (r: String)
    ensures
        r@ == v@,
{
    chars_to_string(&v)
}

/// The text of a scalar object.
fn scalar_to_string(o: &PdfObject, slash: bool) -> (r: String)
    requires
        !(*o is Array),
        !(*o is Reference),
    ensures
        r@ == scalar_text(*o, slash),
{
    match o {
        PdfObject::Null => {
            let v = vec!['n', 'u', 'l', 'l'];
            assert(v@ =~= scalar_text(*o, slash));
            literal(v)
        },
        PdfObject::Boolean(b) => bool_to_text(*b),
        PdfObject::Integer(i) => i64_text(*i),
        PdfObject::Real(t) => t.clone(),
        PdfObject::Name(n) => {
            let t = lossy_text(n.as_slice());
            if slash {
                let mut r = literal(vec!['/']);
                r.append(t.as_str());
                assert(r@ =~= scalar_text(*o, slash));
                r
            } else {
                t
            }
        },
        PdfObject::Str(b) => lossy_text(b.as_slice()),
        PdfObject::Dictionary(_) => {
            let v = vec!['<', 'd', 'i', 'c', 't', 'i', 'o', 'n', 'a', 'r', 'y', '>'];
            assert(v@ =~= scalar_text(*o, slash));
            literal(v)
        },
        PdfObject::Stream => {
            let v = vec!['<', 's', 't', 'r', 'e', 'a', 'm', '>'];
            assert(v@ =~= scalar_text(*o, slash));
            literal(v)
        },
        _ => String::new(),
    }
}

/// Writes `obj` as text, with `fuel` bounding the depth of arrays.
pub fn object_text_with(doc: &PdfDocument, obj: &PdfObject, slash: bool, fuel: usize) -> (r: Result<
    String,
    PdfError,
>)
    ensures
        text_view(r) == bounded_text(object_text(*doc, *obj, slash, fuel as nat)),
    decreases fuel,
{
    if fuel == 0 {
        return Err(PdfError::DepthLimit);
    }
    proof {
        lemma_dereference_result(*doc, *obj);
    }
    let target = match doc.dereference(obj) {
        Ok((_, o)) => o,
        Err(e) => {
            return Err(e);
        },
    };
    match target {
        PdfObject::Array(items) => {
            let f: usize = fuel - 1;
            let mut parts: Vec<String> = Vec::new();
            let mut i: usize = 0;
            assert(items@.skip(0) =~= items@);
            assert(string_views(parts@) =~= Seq::<Seq<char>>::empty());
            while i < items.len()
                invariant
                    0 <= i <= items@.len(),
                    fuel > 0,
                    f == fuel - 1,
                    resolve(*doc, *obj) == Ok::<PdfObject, PdfError>(PdfObject::Array(*items)),
                    items_text(*doc, items@, slash, f as nat) == prepend_parts(
                        string_views(parts@),
                        items_text(*doc, items@.skip(i as int), slash, f as nat),
                    ),
                decreases items@.len() - i,
            {
                let ghost rest = items@.skip(i as int);
                assert(rest[0] == items@[i as int]);
                assert(rest.drop_first() =~= items@.skip(i + 1));
                let t = match object_text_with(doc, &items[i], slash, f) {
                    Ok(t) => t,
                    Err(e) => {
                        return Err(e);
                    },
                };
                let ghost before = string_views(parts@);
                parts.push(t);
                assert(string_views(parts@) =~= before.push(t@));
                proof {
                    if let Some(Ok(ts)) = items_text(*doc, items@.skip(i + 1), slash, f as nat) {
                        assert(before + (seq![t@] + ts) =~= before.push(t@) + ts);
                    }
                }
                i = i + 1;
            }
            assert(items@.skip(i as int) =~= Seq::<PdfObject>::empty());
            assert(string_views(parts@) + Seq::<Seq<char>>::empty() =~= string_views(parts@));
            let sep = literal(vec![',', ' ']);
            assert(sep@ =~= item_sep());
            Ok(join_strings(&parts, sep.as_str()))
        },
        _ => Ok(scalar_to_string(target, slash)),
    }
}

/// Writing an object as text never reads a `V` entry.
pub proof fn lemma_text_agree(d1: PdfDocument, d2: PdfDocument, obj: PdfObject, slash: bool, fuel: nat)
    requires
        agree_except_values(d1, d2),
    ensures
        object_text(d1, obj, slash, fuel) == object_text(d2, obj, slash, fuel),
    decreases fuel, 0nat,
{
    if fuel > 0 {
        lemma_deref_agree(d1, d2, obj, None, 0);
        match (dereference(d1, obj), dereference(d2, obj)) {
            (Ok((_, o1)), Ok((_, o2))) => {
                if o1 == o2 {
                    if let PdfObject::Array(items) = o1 {
                        lemma_items_agree(d1, d2, items@, slash, (fuel - 1) as nat);
                    }
                }
            },
            _ => {},
        }
    }
}

/// Writing items as text never reads a `V` entry.
pub proof fn lemma_items_agree(d1: PdfDocument, d2: PdfDocument, items: Seq<PdfObject>, slash: bool, fuel: nat)
    requires
        agree_except_values(d1, d2),
    ensures
        items_text(d1, items, slash, fuel) == items_text(d2, items, slash, fuel),
    decreases fuel, items.len(),
{
    if items.len() > 0 {
        lemma_text_agree(d1, d2, items[0], slash, fuel);
        lemma_items_agree(d1, d2, items.drop_first(), slash, fuel);
    }
}

} // verus!

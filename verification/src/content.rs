//! Reading text-showing operators of page content: which operator does
//! what inside and outside text objects, and the operands they read.

use vstd::prelude::*;
use crate::fill::PdfNumber;
use crate::pdf::{PdfDocument, PdfError, PdfObject, resolve};
use crate::text::{lossy_text, owned, utf8_lossy};

verus! {

/// What a content operator does to the text state.
#[derive(PartialEq, Eq, Structural, Clone, Copy, Debug)]
pub enum TextAction {
    /// `BT`: start a text object with a fresh text state.
    BeginText,
    /// `ET`: end the text object.
    EndText,
    /// `Tm`: set the text matrix and the line matrix.
    SetMatrix,
    /// `Td`: move to the start of the next line.
    MoveText,
    /// `TD`: move to the next line and set the leading.
    MoveTextSetLeading,
    /// `T*`: move to the start of the next line by the leading.
    NextLine,
    /// `Tf`: set the font and its size.
    SetFont,
    /// `Tc`: set the character spacing.
    SetCharSpace,
    /// `Tw`: set the word spacing.
    SetWordSpace,
    /// `Th`: set the horizontal scaling.
    SetHorizontalScale,
    /// `TL`: set the leading.
    SetLeading,
    /// `Ts`: set the rise.
    SetRise,
    /// `Tj`: show a string.
    ShowText,
    /// `TJ`: show an array of strings and adjustments.
    ShowTextArray,
    /// Anything else, or a text operator outside a text object.
    Ignore,
}

/// What the operator `op` does, and whether a text object is open after
/// it, given whether one is open before it. `BT` and `ET` act anywhere;
/// the other text operators act only inside a text object.
pub open spec fn text_step(in_text: bool, op: Seq<char>) -> (bool, TextAction) {
    if op == "BT"@ {
        (true, TextAction::BeginText)
    } else if op == "ET"@ {
        (false, TextAction::EndText)
    } else if !in_text {
        (false, TextAction::Ignore)
    } else if op == "Tm"@ {
        (true, TextAction::SetMatrix)
    } else if op == "Td"@ {
        (true, TextAction::MoveText)
    } else if op == "TD"@ {
        (true, TextAction::MoveTextSetLeading)
    } else if op == "T*"@ {
        (true, TextAction::NextLine)
    } else if op == "Tf"@ {
        (true, TextAction::SetFont)
    } else if op == "Tc"@ {
        (true, TextAction::SetCharSpace)
    } else if op == "Tw"@ {
        (true, TextAction::SetWordSpace)
    } else if op == "Th"@ {
        (true, TextAction::SetHorizontalScale)
    } else if op == "TL"@ {
        (true, TextAction::SetLeading)
    } else if op == "Ts"@ {
        (true, TextAction::SetRise)
    } else if op == "Tj"@ {
        (true, TextAction::ShowText)
    } else if op == "TJ"@ {
        (true, TextAction::ShowTextArray)
    } else {
        (true, TextAction::Ignore)
    }
}

/// What the operator `op` does, and whether a text object is open after
/// it.
pub fn text_operator(in_text: bool, op: &String) -> (r: (bool, TextAction))
    ensures
        r == text_step(in_text, op@),
{
    if *op == owned("BT") {
        (true, TextAction::BeginText)
    } else if *op == owned("ET") {
        (false, TextAction::EndText)
    } else if !in_text {
        (false, TextAction::Ignore)
    } else if *op == owned("Tm") {
        (true, TextAction::SetMatrix)
    } else if *op == owned("Td") {
        (true, TextAction::MoveText)
    } else if *op == owned("TD") {
        (true, TextAction::MoveTextSetLeading)
    } else if *op == owned("T*") {
        (true, TextAction::NextLine)
    } else if *op == owned("Tf") {
        (true, TextAction::SetFont)
    } else if *op == owned("Tc") {
        (true, TextAction::SetCharSpace)
    } else if *op == owned("Tw") {
        (true, TextAction::SetWordSpace)
    } else if *op == owned("Th") {
        (true, TextAction::SetHorizontalScale)
    } else if *op == owned("TL") {
        (true, TextAction::SetLeading)
    } else if *op == owned("Ts") {
        (true, TextAction::SetRise)
    } else if *op == owned("Tj") {
        (true, TextAction::ShowText)
    } else if *op == owned("TJ") {
        (true, TextAction::ShowTextArray)
    } else {
        (true, TextAction::Ignore)
    }
}

/// Outside a text object, no operator but `BT` opens one, and none but
/// `BT` and `ET` does anything.
pub proof fn lemma_outside_text(op: Seq<char>)
    ensures
        op != "BT"@ ==> !text_step(false, op).0,
        op != "BT"@ && op != "ET"@ ==> text_step(false, op).1 == TextAction::Ignore,
{
}

/// Inside a text object, only `ET` closes it.
pub proof fn lemma_inside_text(op: Seq<char>)
    ensures
        text_step(true, op).0 <==> op != "ET"@,
{
    reveal_strlit("BT");
    reveal_strlit("ET");
    assert("BT"@[0] != "ET"@[0]);
}

/// Whether a text object is open after the operators `ops`, starting
/// outside one.
pub open spec fn text_open_after(ops: Seq<Seq<char>>) -> bool
    decreases ops.len(),
{
    if ops.len() == 0 {
        false
    } else {
        text_step(text_open_after(ops.drop_last()), ops.last()).0
    }
}

/// What each of the operators `ops` does, in order, starting outside a
/// text object.
pub open spec fn text_actions(ops: Seq<Seq<char>>) -> Seq<TextAction>
    decreases ops.len(),
{
    if ops.len() == 0 {
        Seq::empty()
    } else {
        text_actions(ops.drop_last()).push(text_step(text_open_after(ops.drop_last()), ops.last()).1)
    }
}

/// The views of operator names.
pub open spec fn op_views(ops: Seq<String>) -> Seq<Seq<char>> {
    ops.map_values(|o: String| o@)
}

/// What each operator of a page's content does, in order: `BT` and `ET`
/// open and close text objects, and the other text operators act only
/// inside one.
pub fn plan_text_actions(ops: &Vec<String>) -> (r: Vec<TextAction>)
    ensures
        r@ == text_actions(op_views(ops@)),
{
    let ghost views = op_views(ops@);
    let mut r: Vec<TextAction> = Vec::new();
    let mut in_text = false;
    let mut i: usize = 0;
    assert(views.take(0) =~= Seq::<Seq<char>>::empty());
    while i < ops.len()
        invariant
            0 <= i <= ops@.len(),
            views == op_views(ops@),
            r@ == text_actions(views.take(i as int)),
            in_text == text_open_after(views.take(i as int)),
        decreases ops@.len() - i,
    {
        let (open, action) = text_operator(in_text, &ops[i]);
        assert(views.take(i + 1).drop_last() =~= views.take(i as int));
        assert(views.take(i + 1).last() == ops@[i as int]@);
        r.push(action);
        in_text = open;
        i = i + 1;
    }
    assert(views.take(ops@.len() as int) =~= views);
    r
}

/// Whether an action changes the text state or shows text, as only the
/// operators inside a text object do.
pub open spec fn acts_in_text(a: TextAction) -> bool {
    a != TextAction::Ignore && a != TextAction::BeginText && a != TextAction::EndText
}

/// Whether `ops[j]` is a `BT` that no `ET` follows before index `i`.
pub open spec fn opened_at(ops: Seq<Seq<char>>, j: int, i: int) -> bool {
    &&& 0 <= j < i
    &&& ops[j] == "BT"@
    &&& forall|k: int| j < k < i ==> ops[k] != "ET"@
}

/// A text object is open after `ops` only when some `BT` in them is
/// followed by no `ET`.
proof fn lemma_open_after(ops: Seq<Seq<char>>)
    ensures
        text_open_after(ops) ==> exists|j: int| opened_at(ops, j, ops.len() as int),
    decreases ops.len(),
{
    if ops.len() > 0 {
        let init = ops.drop_last();
        lemma_open_after(init);
        let n = ops.len() as int;
        if text_open_after(ops) {
            if ops.last() == "BT"@ {
                assert(opened_at(ops, n - 1, n));
            } else {
                lemma_outside_text(ops.last());
                lemma_inside_text(ops.last());
                assert(text_open_after(init));
                let m = n - 1;
                let j = choose|j: int| #[trigger] opened_at(init, j, m);
                assert forall|k: int| j < k < n implies ops[k] != "ET"@ by {
                    if k < n - 1 {
                        assert(init[k] == ops[k]);
                    }
                }
                assert(opened_at(ops, j, n));
            }
        }
    }
}

/// One action for each operator.
proof fn lemma_actions_len(ops: Seq<Seq<char>>)
    ensures
        text_actions(ops).len() == ops.len(),
    decreases ops.len(),
{
    if ops.len() > 0 {
        lemma_actions_len(ops.drop_last());
    }
}

/// The actions of a prefix of the operators are those of the prefix.
proof fn lemma_actions_prefix(ops: Seq<Seq<char>>, i: int)
    requires
        0 <= i < ops.len(),
    ensures
        text_actions(ops)[i] == text_step(text_open_after(ops.take(i)), ops[i]).1,
    decreases ops.len(),
{
    let init = ops.drop_last();
    lemma_actions_len(init);
    if i < ops.len() - 1 {
        lemma_actions_prefix(init, i);
        assert(init.take(i) =~= ops.take(i));
    } else {
        assert(init =~= ops.take(i));
    }
}

/// Text operators act only inside a text object: an operator that changes
/// the text state or shows text comes after a `BT` with no `ET` between.
pub proof fn lemma_acts_only_inside_text(ops: Seq<Seq<char>>, i: int)
    requires
        0 <= i < ops.len(),
        acts_in_text(text_actions(ops)[i]),
    ensures
        exists|j: int| opened_at(ops, j, i),
{
    lemma_actions_prefix(ops, i);
    let pre = ops.take(i);
    lemma_outside_text(ops[i]);
    assert(text_open_after(pre));
    lemma_open_after(pre);
    let j = choose|j: int| opened_at(pre, j, i);
    assert(pre[j] == ops[j]);
    assert forall|k: int| j < k < i implies ops[k] != "ET"@ by {
        assert(pre[k] == ops[k]);
    }
    assert(opened_at(ops, j, i));
}

/// A `BT` starts afresh: the plan of operators `p` followed by operators
/// `q` that open with `BT` is the plan of `p` followed by the plan of `q`,
/// and whether a text object is open at the end depends on `q` alone.
pub proof fn lemma_plan_splits_at_begin_text(p: Seq<Seq<char>>, q: Seq<Seq<char>>)
    requires
        q.len() > 0,
        q[0] == "BT"@,
    ensures
        text_actions(p + q) == text_actions(p) + text_actions(q),
        text_open_after(p + q) == text_open_after(q),
    decreases q.len(),
{
    let pq = p + q;
    if q.len() == 1 {
        assert(pq.drop_last() =~= p);
        assert(q.drop_last() =~= Seq::<Seq<char>>::empty());
        assert(pq.last() == q.last());
        assert(text_actions(q.drop_last()) =~= Seq::<TextAction>::empty());
        assert(text_actions(p) + text_actions(q) =~= text_actions(p).push(TextAction::BeginText));
    } else {
        let q1 = q.drop_last();
        assert(pq.drop_last() =~= p + q1);
        assert(q1[0] == q[0]);
        lemma_plan_splits_at_begin_text(p, q1);
        assert(pq.last() == q.last());
        assert(text_actions(p) + text_actions(q) =~= (text_actions(p) + text_actions(q1)).push(
            text_step(text_open_after(q1), q.last()).1,
        ));
    }
}

/// Dropping an operator met outside every text object, other than `BT`,
/// leaves the plan of the others as it was: the plan of `a`, `x`, `b` is the
/// plan of `a`, `b` with the action of `x` outside a text object put back
/// in its place.
proof fn lemma_plan_without_outside(a: Seq<Seq<char>>, x: Seq<char>, b: Seq<Seq<char>>)
    requires
        !text_open_after(a),
        x != "BT"@,
    ensures
        text_actions(a + seq![x] + b) == text_actions(a + b).insert(a.len() as int, text_step(false, x).1),
        text_open_after(a + seq![x] + b) == text_open_after(a + b),
    decreases b.len(),
{
    lemma_outside_text(x);
    lemma_actions_len(a);
    let axb = a + seq![x] + b;
    let ab = a + b;
    if b.len() == 0 {
        assert(axb.drop_last() =~= a);
        assert(ab =~= a);
        assert(axb.last() == x);
        assert(text_actions(a).insert(a.len() as int, text_step(false, x).1) =~= text_actions(a).push(
            text_step(false, x).1,
        ));
    } else {
        let b1 = b.drop_last();
        lemma_plan_without_outside(a, x, b1);
        assert(axb.drop_last() =~= a + seq![x] + b1);
        assert(ab.drop_last() =~= a + b1);
        assert(axb.last() == b.last());
        assert(ab.last() == b.last());
        lemma_actions_len(a + b1);
        let w = text_step(text_open_after(a + b1), b.last()).1;
        assert(text_actions(a + b1).insert(a.len() as int, text_step(false, x).1).push(w) =~= text_actions(
            a + b1,
        ).push(w).insert(a.len() as int, text_step(false, x).1));
    }
}

/// An operator outside every text object, other than `BT`, can be dropped
/// without changing what the others do: the plan of the operators without
/// it is their plan with its action taken out, and that action is to do
/// nothing unless the operator is `ET`.
pub proof fn lemma_drop_outside_text(ops: Seq<Seq<char>>, k: int)
    requires
        0 <= k < ops.len(),
        ops[k] != "BT"@,
        !text_open_after(ops.take(k)),
    ensures
        text_actions(ops.remove(k)) == text_actions(ops).remove(k),
        ops[k] != "ET"@ ==> text_actions(ops)[k] == TextAction::Ignore,
{
    let a = ops.take(k);
    let b = ops.skip(k + 1);
    assert(ops =~= a + seq![ops[k]] + b);
    assert(ops.remove(k) =~= a + b);
    lemma_plan_without_outside(a, ops[k], b);
    lemma_actions_len(a + b);
    lemma_outside_text(ops[k]);
    assert(text_actions(a + b).insert(k, text_step(false, ops[k]).1).remove(k) =~= text_actions(a + b));
}

/// The index into a font's widths of the width of `byte`, whose widths
/// start at `first_char`; none when the byte lies outside them.
pub open spec fn width_slot(byte: u8, first_char: i64, n_widths: nat) -> Option<nat> {
    let index = byte - first_char;
    if 0 <= index && index < n_widths {
        Some(index as nat)
    } else {
        None
    }
}

/// The index into a font's widths of the width of `byte`; none when the
/// byte lies outside them (its width then defaults).
pub fn width_index(byte: u8, first_char: i64, n_widths: usize) -> (r: Option<usize>)
    requires
        byte - first_char <= i64::MAX,
    ensures
        match width_slot(byte, first_char, n_widths as nat) {
            Some(i) => r == Some(i as usize),
            None => r is None,
        },
{
    let index: i64 = byte as i64 - first_char;
    if index >= 0 && (index as u64) < (n_widths as u64) {
        Some(index as usize)
    } else {
        None
    }
}

/// The bytes of a string operand, following references.
pub open spec fn bytes_spec(doc: PdfDocument, object: PdfObject) -> Option<Seq<u8>> {
    match resolve(doc, object) {
        Ok(PdfObject::Str(b)) => Some(b@),
        _ => None,
    }
}

/// The bytes of a string operand, following references; none for anything
/// else.
pub fn extract_bytes<'a>(doc: &'a PdfDocument, object: &'a PdfObject) -> (r: Option<&'a Vec<u8>>)
    ensures
        match bytes_spec(*doc, *object) {
            Some(b) => r matches Some(x) && x@ == b,
            None => r is None,
        },
{
    match doc.dereference(object) {
        Ok((_, PdfObject::Str(b))) => Some(b),
        _ => None,
    }
}

/// What the operand of `Tj` or `TJ` shows: the bytes of a string, or the
/// items of an array of strings and adjustments, or neither; references
/// are followed first.
pub enum ShownText<'a> {
    Bytes(&'a Vec<u8>),
    Items(&'a Vec<PdfObject>),
    Neither,
}

/// What a text-showing operand shows: a string's bytes when it resolves to
/// a string, else an array's items when it resolves to an array, else
/// nothing.
pub fn shown_text<'a>(doc: &'a PdfDocument, object: &'a PdfObject) -> (r: ShownText<'a>)
    ensures
        match r {
            ShownText::Bytes(b) => bytes_spec(*doc, *object) == Some(b@),
            ShownText::Items(a) => bytes_spec(*doc, *object) is None && resolve(*doc, *object) == Ok::<
                PdfObject,
                PdfError,
            >(PdfObject::Array(*a)),
            ShownText::Neither => bytes_spec(*doc, *object) is None && !(resolve(*doc, *object) matches Ok(
                PdfObject::Array(_),
            )),
        },
{
    match extract_bytes(doc, object) {
        Some(b) => ShownText::Bytes(b),
        None => match doc.dereference(object) {
            Ok((_, PdfObject::Array(a))) => ShownText::Items(a),
            _ => ShownText::Neither,
        },
    }
}

/// The name that an operand is, following references.
pub open spec fn name_spec(doc: PdfDocument, object: PdfObject) -> Option<Seq<u8>> {
    match resolve(doc, object) {
        Ok(PdfObject::Name(n)) => Some(n@),
        _ => None,
    }
}

/// The name that an operand is, following references; none for anything
/// else.
pub fn get_name<'a>(doc: &'a PdfDocument, object: &'a PdfObject) -> (r: Option<&'a Vec<u8>>)
    ensures
        match name_spec(*doc, *object) {
            Some(n) => r matches Some(x) && x@ == n,
            None => r is None,
        },
{
    match doc.dereference(object) {
        Ok((_, PdfObject::Name(n))) => Some(n),
        _ => None,
    }
}

/// The number that an operand is, following references; `NotANumber` for
/// anything else.
pub open spec fn operand_number(doc: PdfDocument, object: PdfObject) -> Result<PdfNumber, PdfError> {
    match resolve(doc, object) {
        Err(e) => Err(e),
        Ok(PdfObject::Integer(i)) => Ok(PdfNumber::Integer(i)),
        Ok(PdfObject::Real(t)) => Ok(PdfNumber::Real(t)),
        Ok(_) => Err(PdfError::NotANumber),
    }
}

/// The number that an operand is, following references.
pub fn get_number(doc: &PdfDocument, object: &PdfObject) -> (r: Result<PdfNumber, PdfError>)
    ensures
        r == operand_number(*doc, *object),
{
    match doc.dereference(object) {
        Err(e) => Err(e),
        Ok((_, PdfObject::Integer(i))) => Ok(PdfNumber::Integer(*i)),
        Ok((_, PdfObject::Real(t))) => Ok(PdfNumber::Real(t.clone())),
        Ok(_) => Err(PdfError::NotANumber),
    }
}

/// The numbers of the operands, when every one is a number.
pub open spec fn all_numbers(doc: PdfDocument, operands: Seq<PdfObject>) -> Option<Seq<PdfNumber>>
    decreases operands.len(),
{
    if operands.len() == 0 {
        Some(Seq::empty())
    } else {
        match (operand_number(doc, operands[0]), all_numbers(doc, operands.drop_first())) {
            (Ok(n), Some(ns)) => Some(seq![n] + ns),
            _ => None,
        }
    }
}

/// The six numbers of a matrix operand list: there must be six operands,
/// all numbers.
pub open spec fn matrix_spec(doc: PdfDocument, operands: Seq<PdfObject>) -> Option<Seq<PdfNumber>> {
    if operands.len() == 6 {
        all_numbers(doc, operands)
    } else {
        None
    }
}

/// The six numbers of a `Tm` operand list.
pub fn parse_matrix(doc: &PdfDocument, operands: &Vec<PdfObject>) -> (r: Option<Vec<PdfNumber>>)
    ensures
        match matrix_spec(*doc, operands@) {
            Some(ns) => r matches Some(v) && v@ == ns,
            None => r is None,
        },
{
    if operands.len() != 6 {
        return None;
    }
    let mut numbers: Vec<PdfNumber> = Vec::new();
    let mut all = true;
    let mut i: usize = 0;
    assert(operands@.skip(0) =~= operands@);
    while i < operands.len()
        invariant
            0 <= i <= operands@.len(),
            operands@.len() == 6,
            all ==> match all_numbers(*doc, operands@) {
                Some(ns) => all_numbers(*doc, operands@.skip(i as int)) matches Some(rest) && ns == numbers@ + rest,
                None => all_numbers(*doc, operands@.skip(i as int)) is None,
            },
            !all ==> all_numbers(*doc, operands@) is None,
        decreases operands@.len() - i,
    {
        let ghost rest = operands@.skip(i as int);
        assert(rest.drop_first() =~= operands@.skip(i + 1));
        match get_number(doc, &operands[i]) {
            Ok(n) => {
                if all {
                    let ghost before = numbers@;
                    numbers.push(n);
                    proof {
                        if let Some(r2) = all_numbers(*doc, operands@.skip(i + 1)) {
                            assert(before + (seq![n] + r2) =~= numbers@ + r2);
                        }
                    }
                }
            },
            Err(_) => {
                all = false;
            },
        }
        i = i + 1;
    }
    if all {
        assert(operands@.skip(6) =~= Seq::<PdfObject>::empty());
        assert(numbers@ + Seq::<PdfNumber>::empty() =~= numbers@);
        Some(numbers)
    } else {
        None
    }
}

/// The first two numbers of an operand list, when it has at least two
/// operands and both are numbers.
pub open spec fn two_numbers_spec(doc: PdfDocument, operands: Seq<PdfObject>) -> Option<(PdfNumber, PdfNumber)> {
    if operands.len() >= 2 {
        match (operand_number(doc, operands[0]), operand_number(doc, operands[1])) {
            (Ok(a), Ok(b)) => Some((a, b)),
            _ => None,
        }
    } else {
        None
    }
}

/// The first two numbers of a `Td` or `TD` operand list.
pub fn parse_two_numbers(doc: &PdfDocument, operands: &Vec<PdfObject>) -> (r: Option<(PdfNumber, PdfNumber)>)
    ensures
        r == two_numbers_spec(*doc, operands@),
{
    if operands.len() >= 2 {
        match (get_number(doc, &operands[0]), get_number(doc, &operands[1])) {
            (Ok(a), Ok(b)) => Some((a, b)),
            _ => None,
        }
    } else {
        None
    }
}

/// A font's text encoding, from `lopdf`.
#[verifier::external_type_specification]
#[verifier::external_body]
pub struct ExEncoding<'a>(lopdf::Encoding<'a>);

/// An error of `lopdf`.
#[verifier::external_type_specification]
#[verifier::external_body]
pub struct ExLopdfError(lopdf::Error);

/// The text that a font encoding makes of `bytes`, or none when it cannot
/// decode them: what `Encoding::bytes_to_string` gives, a function of the
/// encoding and the bytes alone.
pub uninterp spec fn encoded_text(encoding: lopdf::Encoding, bytes: Seq<u8>) -> Option<Seq<char>>;

/// `Encoding::bytes_to_string`: the text that the encoding gives for
/// `bytes`, or its error. The result is named by `encoded_text`.
#[verifier::external_body]
fn encoding_bytes_to_string(encoding: &lopdf::Encoding, bytes: &[u8]) -> (r: Result<String, lopdf::Error>)
    ensures
        match r {
            Ok(s) => encoded_text(*encoding, bytes@) == Some(s@),
            Err(_) => encoded_text(*encoding, bytes@) is None,
        },
{
    encoding.bytes_to_string(bytes)
}

/// The text of a string shown in a font, from what the font's encoding
/// made of its bytes: that text when decoding succeeded, else the bytes
/// read as UTF-8, with invalid sequences replaced.
pub fn decoded_or_lossy(decoded: Result<String, lopdf::Error>, bytes: &[u8]) -> (r: String)
    ensures
        match decoded {
            Ok(s) => r@ == s@,
            Err(_) => r@ == utf8_lossy(bytes@),
        },
{
    match decoded {
        Ok(s) => s,
        Err(_) => lossy_text(bytes),
    }
}

/// The text of a string shown in a font: the font's encoding decodes the
/// bytes when it has one and that succeeds; else the bytes are read as
/// UTF-8, with invalid sequences replaced.
pub fn decode_text(encoding: Option<&lopdf::Encoding>, bytes: &[u8]) -> (r: String)
    ensures
        r@ == match encoding {
            Some(e) => match encoded_text(*e, bytes@) {
                Some(t) => t,
                None => utf8_lossy(bytes@),
            },
            None => utf8_lossy(bytes@),
        },
{
    match encoding {
        Some(enc) => decoded_or_lossy(encoding_bytes_to_string(enc, bytes), bytes),
        None => lossy_text(bytes),
    }
}

} // verus!

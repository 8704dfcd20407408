//! A plain model of a PDF document's object table, and the lookups the tools
//! make on it: dictionary entries, objects by id, and reference chains.

use vstd::prelude::*;

verus! {

/// An object number and a generation number.
pub type ObjectId = (u32, u16);

/// The variant of an object, as named in type errors.
#[derive(PartialEq, Eq, Structural, Clone, Copy, Debug)]
pub enum ObjectKind {
    Null,
    Boolean,
    Integer,
    Real,
    Name,
    Str,
    Array,
    Dictionary,
    Stream,
    Reference,
}

/// A PDF object.
pub enum PdfObject {
    Null,
    Boolean(bool),
    Integer(i64),
    /// A real number, held as the decimal text that its display writes.
    Real(String),
    Name(Vec<u8>),
    Str(Vec<u8>),
    Array(Vec<PdfObject>),
    Dictionary(PdfDict),
    /// A stream; nothing here reads its dictionary or its data.
    Stream,
    Reference(ObjectId),
}

/// A dictionary: its entries in order. Keys are distinct in a dictionary
/// read from a document; a lookup finds the first entry with the key.
pub struct PdfDict {
    pub entries: Vec<(Vec<u8>, PdfObject)>,
}

/// A document: its objects by id, and its trailer dictionary.
pub struct PdfDocument {
    pub objects: Vec<(ObjectId, PdfObject)>,
    pub trailer: PdfDict,
}

/// Why a lookup or a conversion failed.
#[derive(Clone, Copy, Debug)]
pub enum PdfError {
    /// No object has this id.
    ObjectNotFound(ObjectId),
    /// A chain of references was longer than the dereference limit.
    ReferenceLimit,
    /// An object had another variant than the one asked for.
    ObjectType { expected: ObjectKind, found: ObjectKind },
    /// A dictionary has no entry with the key that was asked for.
    DictKey(KeyName),
    /// The document catalog has no `AcroForm` entry.
    MissingAcroForm,
    /// The interactive form has no `Fields` entry.
    MissingFields,
    /// An object that should be a number is none.
    NotANumber,
    /// Arrays or fields nest deeper than an index can count: through
    /// references, one contains itself.
    DepthLimit,
}

/// The dictionary keys that the tools ask for.
#[derive(PartialEq, Eq, Structural, Clone, Copy, Debug)]
pub enum KeyName {
    Root,
    AcroForm,
    Fields,
    T,
    FT,
    V,
    Kids,
    Rect,
    P,
}

/// The bytes of a key.
pub open spec fn key_bytes(k: KeyName) -> Seq<u8> {
    match k {
        KeyName::Root => seq![0x52u8, 0x6f, 0x6f, 0x74],
        KeyName::AcroForm => seq![0x41u8, 0x63, 0x72, 0x6f, 0x46, 0x6f, 0x72, 0x6d],
        KeyName::Fields => seq![0x46u8, 0x69, 0x65, 0x6c, 0x64, 0x73],
        KeyName::T => seq![0x54u8],
        KeyName::FT => seq![0x46u8, 0x54],
        KeyName::V => seq![0x56u8],
        KeyName::Kids => seq![0x4bu8, 0x69, 0x64, 0x73],
        KeyName::Rect => seq![0x52u8, 0x65, 0x63, 0x74],
        KeyName::P => seq![0x50u8],
    }
}

/// The bytes of a key, as a vector.
pub fn key_vec(k: KeyName) -> (r: Vec<u8>)
    ensures
        r@ == key_bytes(k),
{
    let r = match k {
        KeyName::Root => vec![0x52u8, 0x6f, 0x6f, 0x74],
        KeyName::AcroForm => vec![0x41u8, 0x63, 0x72, 0x6f, 0x46, 0x6f, 0x72, 0x6d],
        KeyName::Fields => vec![0x46u8, 0x69, 0x65, 0x6c, 0x64, 0x73],
        KeyName::T => vec![0x54u8],
        KeyName::FT => vec![0x46u8, 0x54],
        KeyName::V => vec![0x56u8],
        KeyName::Kids => vec![0x4bu8, 0x69, 0x64, 0x73],
        KeyName::Rect => vec![0x52u8, 0x65, 0x63, 0x74],
        KeyName::P => vec![0x50u8],
    };
    assert(r@ =~= key_bytes(k));
    r
}

/// The variant of an object.
pub open spec fn kind_of(o: PdfObject) -> ObjectKind {
    match o {
        PdfObject::Null => ObjectKind::Null,
        PdfObject::Boolean(_) => ObjectKind::Boolean,
        PdfObject::Integer(_) => ObjectKind::Integer,
        PdfObject::Real(_) => ObjectKind::Real,
        PdfObject::Name(_) => ObjectKind::Name,
        PdfObject::Str(_) => ObjectKind::Str,
        PdfObject::Array(_) => ObjectKind::Array,
        PdfObject::Dictionary(_) => ObjectKind::Dictionary,
        PdfObject::Stream => ObjectKind::Stream,
        PdfObject::Reference(_) => ObjectKind::Reference,
    }
}

/// The variant of an object.
pub fn object_kind(o: &PdfObject) -> (k: ObjectKind)
    ensures
        k == kind_of(*o),
{
    match o {
        PdfObject::Null => ObjectKind::Null,
        PdfObject::Boolean(_) => ObjectKind::Boolean,
        PdfObject::Integer(_) => ObjectKind::Integer,
        PdfObject::Real(_) => ObjectKind::Real,
        PdfObject::Name(_) => ObjectKind::Name,
        PdfObject::Str(_) => ObjectKind::Str,
        PdfObject::Array(_) => ObjectKind::Array,
        PdfObject::Dictionary(_) => ObjectKind::Dictionary,
        PdfObject::Stream => ObjectKind::Stream,
        PdfObject::Reference(_) => ObjectKind::Reference,
    }
}

/// The value of the first entry whose key is `key`.
pub open spec fn entries_get(entries: Seq<(Vec<u8>, PdfObject)>, key: Seq<u8>) -> Option<PdfObject>
    decreases entries.len(),
{
    if entries.len() == 0 {
        None
    } else if entries[0].0@ == key {
        Some(entries[0].1)
    } else {
        entries_get(entries.drop_first(), key)
    }
}

/// The value that a dictionary holds under `key`.
pub open spec fn dict_get(d: PdfDict, key: Seq<u8>) -> Option<PdfObject> {
    entries_get(d.entries@, key)
}

/// The object stored first under `id`.
pub open spec fn objects_get(objects: Seq<(ObjectId, PdfObject)>, id: ObjectId) -> Option<PdfObject>
    decreases objects.len(),
{
    if objects.len() == 0 {
        None
    } else if objects[0].0 == id {
        Some(objects[0].1)
    } else {
        objects_get(objects.drop_first(), id)
    }
}

/// The object that a document stores under `id`.
pub open spec fn doc_get(doc: PdfDocument, id: ObjectId) -> Option<PdfObject> {
    objects_get(doc.objects@, id)
}

/// How many references a dereference follows at most.
pub open spec fn deref_limit() -> nat {
    128
}

/// Following references from `obj`, after `hops` of them, the last of which
/// was `last`: the id of the last reference followed and the first object
/// that is no reference.
pub open spec fn deref_from(
    doc: PdfDocument,
    obj: PdfObject,
    last: Option<ObjectId>,
    hops: nat,
) -> Result<(Option<ObjectId>, PdfObject), PdfError>
    decreases deref_limit() - hops,
{
    match obj {
        PdfObject::Reference(id) => match doc_get(doc, id) {
            None => Err(PdfError::ObjectNotFound(id)),
            Some(next) => if hops + 1 > deref_limit() {
                Err(PdfError::ReferenceLimit)
            } else {
                deref_from(doc, next, Some(id), hops + 1)
            },
        },
        _ => Ok((last, obj)),
    }
}

/// An object with its references followed: the id of the last reference
/// followed (none when `obj` is no reference) and the object reached.
pub open spec fn dereference(doc: PdfDocument, obj: PdfObject) -> Result<
    (Option<ObjectId>, PdfObject),
    PdfError,
> {
    deref_from(doc, obj, None, 0)
}

/// The object that `dereference` reaches, or its error.
pub open spec fn resolve(doc: PdfDocument, obj: PdfObject) -> Result<PdfObject, PdfError> {
    match dereference(doc, obj) {
        Ok((_, o)) => Ok(o),
        Err(e) => Err(e),
    }
}

/// A dereference never ends on a reference.
pub proof fn lemma_deref_from_not_reference(
    doc: PdfDocument,
    obj: PdfObject,
    last: Option<ObjectId>,
    hops: nat,
)
    ensures
        deref_from(doc, obj, last, hops) matches Ok((_, o)) ==> !(o is Reference),
    decreases deref_limit() - hops,
{
    if let PdfObject::Reference(id) = obj {
        if let Some(next) = doc_get(doc, id) {
            if hops + 1 <= deref_limit() {
                lemma_deref_from_not_reference(doc, next, Some(id), hops + 1);
            }
        }
    }
}

/// A dereference never ends on a reference, and from an object that is no
/// reference it gives that object back.
pub proof fn lemma_dereference_result(doc: PdfDocument, obj: PdfObject)
    ensures
        dereference(doc, obj) matches Ok((_, o)) ==> !(o is Reference),
        !(obj is Reference) ==> dereference(doc, obj) == Ok::<(Option<ObjectId>, PdfObject), PdfError>((None, obj)),
{
    lemma_deref_from_not_reference(doc, obj, None, 0);
}

impl PdfDict {
    /// The value stored under `key`; `DictKey` when there is none.
    pub fn get(&self, key: KeyName) -> (r: Result<&PdfObject, PdfError>)
        ensures
            match dict_get(*self, key_bytes(key)) {
                Some(v) => r == Ok::<&PdfObject, PdfError>(&v),
                None => r == Err::<&PdfObject, PdfError>(PdfError::DictKey(key)),
            },
    {
        let k = key_vec(key);
        let mut i: usize = 0;
        assert(self.entries@.skip(0) =~= self.entries@);
        while i < self.entries.len()
            invariant
                0 <= i <= self.entries@.len(),
                k@ == key_bytes(key),
                dict_get(*self, key_bytes(key)) == entries_get(self.entries@.skip(i as int), key_bytes(key)),
            decreases self.entries@.len() - i,
        {
            let ghost rest = self.entries@.skip(i as int);
            assert(rest.drop_first() =~= self.entries@.skip(i + 1));
            if bytes_eq(&self.entries[i].0, &k) {
                return Ok(&self.entries[i].1);
            }
            i = i + 1;
        }
        Err(PdfError::DictKey(key))
    }
}

/// Whether two byte strings are equal.
pub fn bytes_eq(a: &Vec<u8>, b: &Vec<u8>) -> (r: bool)
    ensures
        r == (a@ == b@),
{
    if a.len() != b.len() {
        return false;
    }
    let mut i: usize = 0;
    while i < a.len()
        invariant
            0 <= i <= a@.len(),
            a@.len() == b@.len(),
            forall|j: int| 0 <= j < i ==> a@[j] == b@[j],
        decreases a@.len() - i,
    {
        if a[i] != b[i] {
            return false;
        }
        i = i + 1;
    }
    assert(a@ =~= b@);
    true
}

/// The object reached from the object stored under `id`, or its error.
pub open spec fn object_spec(doc: PdfDocument, id: ObjectId) -> Result<PdfObject, PdfError> {
    match doc_get(doc, id) {
        None => Err(PdfError::ObjectNotFound(id)),
        Some(o) => resolve(doc, o),
    }
}

/// The id of the object that a change to the object under `id` changes: the
/// last reference followed from what is stored under `id`, or `id` itself.
pub open spec fn target_spec(doc: PdfDocument, id: ObjectId) -> Result<ObjectId, PdfError> {
    match doc_get(doc, id) {
        None => Err(PdfError::ObjectNotFound(id)),
        Some(o) => match dereference(doc, o) {
            Ok((Some(rid), _)) => Ok(rid),
            Ok((None, _)) => Ok(id),
            Err(e) => Err(e),
        },
    }
}

/// The dictionary that an object is, or a type error.
pub open spec fn dict_spec(o: PdfObject) -> Result<PdfDict, PdfError> {
    match o {
        PdfObject::Dictionary(d) => Ok(d),
        _ => Err(PdfError::ObjectType { expected: ObjectKind::Dictionary, found: kind_of(o) }),
    }
}

/// The array that an object is, or a type error.
pub open spec fn array_spec(o: PdfObject) -> Result<Seq<PdfObject>, PdfError> {
    match o {
        PdfObject::Array(a) => Ok(a@),
        _ => Err(PdfError::ObjectType { expected: ObjectKind::Array, found: kind_of(o) }),
    }
}

/// The id that an object refers to, or a type error.
pub open spec fn reference_spec(o: PdfObject) -> Result<ObjectId, PdfError> {
    match o {
        PdfObject::Reference(id) => Ok(id),
        _ => Err(PdfError::ObjectType { expected: ObjectKind::Reference, found: kind_of(o) }),
    }
}

/// The document catalog: the dictionary that the trailer's `Root` entry
/// refers to.
pub open spec fn catalog_spec(doc: PdfDocument) -> Result<PdfDict, PdfError> {
    match dict_get(doc.trailer, key_bytes(KeyName::Root)) {
        None => Err(PdfError::DictKey(KeyName::Root)),
        Some(r) => match reference_spec(r) {
            Err(e) => Err(e),
            Ok(id) => match object_spec(doc, id) {
                Err(e) => Err(e),
                Ok(o) => dict_spec(o),
            },
        },
    }
}

/// The dictionary that an object is.
pub fn as_dict(o: &PdfObject) -> (r: Result<&PdfDict, PdfError>)
    ensures
        match dict_spec(*o) {
            Ok(d) => r matches Ok(x) && *x == d,
            Err(e) => r == Err::<&PdfDict, PdfError>(e),
        },
{
    match o {
        PdfObject::Dictionary(d) => Ok(d),
        _ => Err(PdfError::ObjectType { expected: ObjectKind::Dictionary, found: object_kind(o) }),
    }
}

/// The array that an object is.
pub fn as_array(o: &PdfObject) -> (r: Result<&Vec<PdfObject>, PdfError>)
    ensures
        match array_spec(*o) {
            Ok(a) => r matches Ok(x) && x@ == a,
            Err(e) => r == Err::<&Vec<PdfObject>, PdfError>(e),
        },
{
    match o {
        PdfObject::Array(a) => Ok(a),
        _ => Err(PdfError::ObjectType { expected: ObjectKind::Array, found: object_kind(o) }),
    }
}

/// The id that an object refers to.
pub fn as_reference(o: &PdfObject) -> (r: Result<ObjectId, PdfError>)
    ensures
        r == reference_spec(*o),
{
    match o {
        PdfObject::Reference(id) => Ok(*id),
        _ => Err(PdfError::ObjectType { expected: ObjectKind::Reference, found: object_kind(o) }),
    }
}

/// The name that an object is, if it is one.
pub fn as_name(o: &PdfObject) -> (r: Option<&Vec<u8>>)
    ensures
        match *o {
            PdfObject::Name(n) => r matches Some(x) && x@ == n@,
            _ => r is None,
        },
{
    match o {
        PdfObject::Name(n) => Some(n),
        _ => None,
    }
}

/// The bytes of a string object, if it is one.
pub fn as_str(o: &PdfObject) -> (r: Option<&Vec<u8>>)
    ensures
        match *o {
            PdfObject::Str(b) => r matches Some(x) && x@ == b@,
            _ => r is None,
        },
{
    match o {
        PdfObject::Str(b) => Some(b),
        _ => None,
    }
}

impl PdfDocument {
    /// The object stored first under `id`.
    pub fn lookup(&self, id: ObjectId) -> (r: Option<&PdfObject>)
        ensures
            match doc_get(*self, id) {
                Some(o) => r matches Some(x) && *x == o,
                None => r is None,
            },
    {
        let mut i: usize = 0;
        assert(self.objects@.skip(0) =~= self.objects@);
        while i < self.objects.len()
            invariant
                0 <= i <= self.objects@.len(),
                doc_get(*self, id) == objects_get(self.objects@.skip(i as int), id),
            decreases self.objects@.len() - i,
        {
            let ghost rest = self.objects@.skip(i as int);
            assert(rest.drop_first() =~= self.objects@.skip(i + 1));
            let entry_id = self.objects[i].0;
            if entry_id.0 == id.0 && entry_id.1 == id.1 {
                return Some(&self.objects[i].1);
            }
            i = i + 1;
        }
        None
    }

    /// Follows references from `object`: the id of the last reference
    /// followed and the first object that is no reference. Fails on a
    /// missing object, and after more references than the limit.
    pub fn dereference<'a>(&'a self, object: &'a PdfObject) -> (r: Result<
        (Option<ObjectId>, &'a PdfObject),
        PdfError,
    >)
        ensures
            match dereference(*self, *object) {
                Ok((id, o)) => r matches Ok((rid, ro)) && rid == id && *ro == o,
                Err(e) => r == Err::<(Option<ObjectId>, &PdfObject), PdfError>(e),
            },
    {
        let mut obj = object;
        let mut nb: usize = 0;
        let mut id: Option<ObjectId> = None;
        loop
            invariant
                nb <= deref_limit(),
                dereference(*self, *object) == deref_from(*self, *obj, id, nb as nat),
            decreases deref_limit() - nb,
        {
            match obj {
                PdfObject::Reference(rid) => {
                    let rid = *rid;
                    id = Some(rid);
                    match self.lookup(rid) {
                        None => {
                            return Err(PdfError::ObjectNotFound(rid));
                        },
                        Some(next) => {
                            obj = next;
                        },
                    }
                    nb = nb + 1;
                    if nb > 128 {
                        return Err(PdfError::ReferenceLimit);
                    }
                },
                _ => {
                    return Ok((id, obj));
                },
            }
        }
    }

    /// The object reached from the object stored under `id`.
    pub fn get_object(&self, id: ObjectId) -> (r: Result<&PdfObject, PdfError>)
        ensures
            match object_spec(*self, id) {
                Ok(o) => r matches Ok(x) && *x == o,
                Err(e) => r == Err::<&PdfObject, PdfError>(e),
            },
    {
        match self.lookup(id) {
            None => Err(PdfError::ObjectNotFound(id)),
            Some(o) => match self.dereference(o) {
                Ok((_, x)) => Ok(x),
                Err(e) => Err(e),
            },
        }
    }

    /// The id of the object that a change to the object under `id` reaches.
    pub fn get_object_target(&self, id: ObjectId) -> (r: Result<ObjectId, PdfError>)
        ensures
            r == target_spec(*self, id),
    {
        match self.lookup(id) {
            None => Err(PdfError::ObjectNotFound(id)),
            Some(o) => match self.dereference(o) {
                Ok((Some(rid), _)) => Ok(rid),
                Ok((None, _)) => Ok(id),
                Err(e) => Err(e),
            },
        }
    }

    /// The document catalog.
    pub fn catalog(&self) -> (r: Result<&PdfDict, PdfError>)
        ensures
            match catalog_spec(*self) {
                Ok(d) => r matches Ok(x) && *x == d,
                Err(e) => r == Err::<&PdfDict, PdfError>(e),
            },
    {
        let root = match self.trailer.get(KeyName::Root) {
            Ok(r) => r,
            Err(e) => {
                return Err(e);
            },
        };
        let id = match as_reference(root) {
            Ok(id) => id,
            Err(e) => {
                return Err(e);
            },
        };
        match self.get_object(id) {
            Ok(o) => as_dict(o),
            Err(e) => Err(e),
        }
    }
}

/// Whether two objects are equal, or are dictionaries that agree on every
/// key but `V`.
pub open spec fn same_except_value(a: PdfObject, b: PdfObject) -> bool {
    ||| a == b
    ||| {
        &&& a is Dictionary
        &&& b is Dictionary
        &&& forall|k: Seq<u8>| k != key_bytes(KeyName::V) ==> #[trigger] dict_get(a->Dictionary_0, k) == dict_get(
            b->Dictionary_0,
            k,
        )
    }
}

/// Whether two documents differ at most in the `V` entries of their
/// dictionary objects: their trailers agree on every key, and every id
/// holds objects that are the same but for `V`, or none in both.
pub open spec fn agree_except_values(d1: PdfDocument, d2: PdfDocument) -> bool {
    &&& forall|k: Seq<u8>| #[trigger] dict_get(d1.trailer, k) == dict_get(d2.trailer, k)
    &&& forall|id: ObjectId| #![trigger doc_get(d1, id)] #![trigger doc_get(d2, id)]
        match (doc_get(d1, id), doc_get(d2, id)) {
            (None, None) => true,
            (Some(a), Some(b)) => same_except_value(a, b),
            _ => false,
        }
}

/// Whether two dereference results are the same but for `V` entries.
pub open spec fn deref_related(
    r1: Result<(Option<ObjectId>, PdfObject), PdfError>,
    r2: Result<(Option<ObjectId>, PdfObject), PdfError>,
) -> bool {
    match (r1, r2) {
        (Err(e1), Err(e2)) => e1 == e2,
        (Ok((l1, o1)), Ok((l2, o2))) => l1 == l2 && same_except_value(o1, o2),
        _ => false,
    }
}

/// Following references never reads a `V` entry.
pub proof fn lemma_deref_agree(
    d1: PdfDocument,
    d2: PdfDocument,
    obj: PdfObject,
    last: Option<ObjectId>,
    hops: nat,
)
    requires
        agree_except_values(d1, d2),
    ensures
        deref_related(deref_from(d1, obj, last, hops), deref_from(d2, obj, last, hops)),
    decreases deref_limit() - hops,
{
    if let PdfObject::Reference(id) = obj {
        assert(match (doc_get(d1, id), doc_get(d2, id)) {
            (None, None) => true,
            (Some(a), Some(b)) => same_except_value(a, b),
            _ => false,
        });
        match (doc_get(d1, id), doc_get(d2, id)) {
            (Some(a), Some(b)) => {
                if hops + 1 <= deref_limit() {
                    if a == b {
                        lemma_deref_agree(d1, d2, a, Some(id), hops + 1);
                    } else {
                        assert(deref_from(d1, a, Some(id), hops + 1) == Ok::<(Option<ObjectId>, PdfObject), PdfError>((Some(id), a)));
                        assert(deref_from(d2, b, Some(id), hops + 1) == Ok::<(Option<ObjectId>, PdfObject), PdfError>((Some(id), b)));
                    }
                }
            },
            _ => {},
        }
    }
}

/// Resolving an object never reads a `V` entry.
pub proof fn lemma_object_spec_agree(d1: PdfDocument, d2: PdfDocument, id: ObjectId)
    requires
        agree_except_values(d1, d2),
    ensures
        deref_related(
            match doc_get(d1, id) {
                None => Err(PdfError::ObjectNotFound(id)),
                Some(o) => dereference(d1, o),
            },
            match doc_get(d2, id) {
                None => Err(PdfError::ObjectNotFound(id)),
                Some(o) => dereference(d2, o),
            },
        ),
        match (object_spec(d1, id), object_spec(d2, id)) {
            (Err(e1), Err(e2)) => e1 == e2,
            (Ok(o1), Ok(o2)) => same_except_value(o1, o2),
            _ => false,
        },
        target_spec(d1, id) == target_spec(d2, id),
{
    assert(match (doc_get(d1, id), doc_get(d2, id)) {
        (None, None) => true,
        (Some(a), Some(b)) => same_except_value(a, b),
        _ => false,
    });
    match (doc_get(d1, id), doc_get(d2, id)) {
        (Some(a), Some(b)) => {
            if a == b {
                lemma_deref_agree(d1, d2, a, None, 0);
            } else {
                assert(dereference(d1, a) == Ok::<(Option<ObjectId>, PdfObject), PdfError>((None, a)));
                assert(dereference(d2, b) == Ok::<(Option<ObjectId>, PdfObject), PdfError>((None, b)));
            }
        },
        _ => {},
    }
}

} // verus!

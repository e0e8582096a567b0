//! The objects of a PDF file, and their mathematical model.

use vstd::prelude::*;
use crate::error::Error;
use crate::names::{type_bytes, type_key, linearized_bytes, linearized_key, length_bytes, length_key, filter_bytes, filter_key, decode_parms_bytes, decode_parms_key};
use crate::strings::lossy_string;

verus! {

/// Object identifier consists of two parts: object number and generation number.
pub type ObjectId = (u32, u16);

/// String objects can be written in two formats.
#[derive(Debug, Clone, Copy, Default, PartialEq, Eq, Structural)]
pub enum StringFormat {
    #[default]
    Literal,
    Hexadecimal,
}

/// Basic PDF object types defined in an enum.
///
/// A real number is held as the digits that write it in a file (an optional
/// sign, digits and one period), which is exactly what a file states of it.
#[derive(Debug)]
pub enum Object {
    Null,
    Boolean(bool),
    Integer(i64),
    Real(Vec<u8>),
    Name(Vec<u8>),
    String(Vec<u8>, StringFormat),
    Array(Vec<Object>),
    Dictionary(Dictionary),
    Stream(Stream),
    Reference(ObjectId),
}

/// Dictionary object: its entries in insertion order, each key once.
#[derive(Debug)]
pub struct Dictionary(Vec<(Vec<u8>, Object)>);

/// Stream object
/// Warning - all streams must be indirect objects, while
/// the stream dictionary may be a direct object
#[derive(Debug)]
pub struct Stream {
    /// Associated stream dictionary
    pub dict: Dictionary,
    /// Contents of the stream in bytes
    pub content: Vec<u8>,
    /// Can the stream be compressed by the `Document::compress()` function?
    /// Font streams may not be compressed, for example
    pub allows_compression: bool,
    /// Stream data's position in PDF file.
    pub start_position: Option<usize>,
}

/// The mathematical value of an object: what it states, without the
/// machinery that holds it.
pub enum PdfValue {
    Null,
    Boolean(bool),
    Integer(i64),
    Real(Seq<u8>),
    Name(Seq<u8>),
    Str(Seq<u8>, StringFormat),
    Array(Seq<PdfValue>),
    Dictionary(Seq<(Seq<u8>, PdfValue)>),
    Stream(Seq<(Seq<u8>, PdfValue)>, Seq<u8>),
    Reference(u32, u16),
}

/// The value of an object.
pub open spec fn object_value(o: Object) -> PdfValue
    decreases o,
{
    match o {
        Object::Null => PdfValue::Null,
        Object::Boolean(b) => PdfValue::Boolean(b),
        Object::Integer(i) => PdfValue::Integer(i),
        Object::Real(r) => PdfValue::Real(r@),
        Object::Name(n) => PdfValue::Name(n@),
        Object::String(s, f) => PdfValue::Str(s@, f),
        Object::Array(v) => PdfValue::Array(
            Seq::new(v@.len(), |i: int| if 0 <= i < v@.len() { object_value(v@[i]) } else { PdfValue::Null }),
        ),
        Object::Dictionary(d) => PdfValue::Dictionary(
            Seq::new(dict_pairs(d).len(), |i: int| if 0 <= i < dict_pairs(d).len() { (dict_pairs(d)[i].0@, object_value(dict_pairs(d)[i].1)) } else { (Seq::empty(), PdfValue::Null) }),
        ),
        Object::Stream(s) => PdfValue::Stream(
            Seq::new(dict_pairs(s.dict).len(), |i: int| if 0 <= i < dict_pairs(s.dict).len() { (dict_pairs(s.dict)[i].0@, object_value(dict_pairs(s.dict)[i].1)) } else { (Seq::empty(), PdfValue::Null) }),
            s.content@,
        ),
        Object::Reference(id) => PdfValue::Reference(id.0, id.1),
    }
}

impl View for Object {
    type V = PdfValue;

    open spec fn view(&self) -> PdfValue {
        object_value(*self)
    }
}

/// The entries that a dictionary holds, in order.
pub closed spec fn dict_pairs(d: Dictionary) -> Seq<(Vec<u8>, Object)> {
    d.0@
}

/// Entries with each key taken by its bytes.
pub open spec fn pairs_view(p: Seq<(Vec<u8>, Object)>) -> Seq<(Seq<u8>, Object)> {
    Seq::new(p.len(), |i: int| (p[i].0@, p[i].1))
}

impl View for Dictionary {
    type V = Seq<(Seq<u8>, Object)>;

    open spec fn view(&self) -> Seq<(Seq<u8>, Object)> {
        pairs_view(dict_pairs(*self))
    }
}

/// The index of the first entry of `entries` among the first `n` whose key is `key`.
pub open spec fn find_key_in<V>(entries: Seq<(Seq<u8>, V)>, key: Seq<u8>, n: nat) -> Option<int>
    decreases n,
{
    if n == 0 {
        None
    } else {
        match find_key_in::<V>(entries, key, (n - 1) as nat) {
            Some(i) => Some(i),
            None => if entries[n - 1].0 == key { Some(n - 1) } else { None },
        }
    }
}

/// The index of the entry of `entries` whose key is `key`, if any.
pub open spec fn find_key<V>(entries: Seq<(Seq<u8>, V)>, key: Seq<u8>) -> Option<int> {
    find_key_in(entries, key, entries.len())
}

/// No key occurs twice.
pub open spec fn keys_distinct<V>(entries: Seq<(Seq<u8>, V)>) -> bool {
    forall|i: int, j: int| 0 <= i < j < entries.len() ==> entries[i].0 != entries[j].0
}

/// The entries of `pairs` set one after another into no entries: a later
/// pair for a key replaces the value of an earlier one, in its place.
pub open spec fn entries_from<V>(pairs: Seq<(Seq<u8>, V)>) -> Seq<(Seq<u8>, V)>
    decreases pairs.len(),
{
    if pairs.len() == 0 {
        Seq::empty()
    } else {
        entries_set(entries_from(pairs.drop_last()), pairs.last().0, pairs.last().1)
    }
}

/// Setting a key keeps the keys distinct.
pub proof fn lemma_set_keeps_distinct<V>(entries: Seq<(Seq<u8>, V)>, key: Seq<u8>, value: V)
    requires
        keys_distinct(entries),
    ensures
        keys_distinct(entries_set(entries, key, value)),
{
    lemma_find_key(entries, key);
}

pub proof fn lemma_find_key_in<V>(entries: Seq<(Seq<u8>, V)>, key: Seq<u8>, n: nat)
    requires
        n <= entries.len(),
    ensures
        match find_key_in(entries, key, n) {
            Some(i) => 0 <= i < n && entries[i].0 == key && forall|j: int| 0 <= j < i ==> entries[j].0 != key,
            None => forall|j: int| 0 <= j < n ==> entries[j].0 != key,
        },
    decreases n,
{
    if n > 0 {
        lemma_find_key_in::<V>(entries, key, (n - 1) as nat);
    }
}

/// What `find_key` gives: the first entry with the key, or none.
pub proof fn lemma_find_key<V>(entries: Seq<(Seq<u8>, V)>, key: Seq<u8>)
    ensures
        match find_key(entries, key) {
            Some(i) => 0 <= i < entries.len() && entries[i].0 == key && forall|j: int| 0 <= j < i ==> entries[j].0 != key,
            None => forall|j: int| 0 <= j < entries.len() ==> entries[j].0 != key,
        },
{
    lemma_find_key_in(entries, key, entries.len());
}

/// The name of the kind of an object.
pub open spec fn variant_name(o: Object) -> &'static str {
    match o {
        Object::Null => "Null",
        Object::Boolean(_) => "Boolean",
        Object::Integer(_) => "Integer",
        Object::Real(_) => "Real",
        Object::Name(_) => "Name",
        Object::String(_, _) => "String",
        Object::Array(_) => "Array",
        Object::Dictionary(_) => "Dictionary",
        Object::Stream(_) => "Stream",
        Object::Reference(_) => "Reference",
    }
}

/// Whether two byte strings are equal.
pub fn bytes_equal(a: &[u8], b: &[u8]) -> (r: bool)
    ensures
        r == (a@ == b@),
{
    if a.len() != b.len() {
        return false;
    }
    let mut i: usize = 0;
    while i < a.len()
        invariant
            a@.len() == b@.len(),
            i <= a@.len(),
            forall|j: int| 0 <= j < i ==> a@[j] == b@[j],
        decreases a@.len() - i,
    {
        if a[i] != b[i] {
            return false;
        }
        i = i + 1;
    }
    assert(a@ =~= b@);
    true
}

impl Object {
    pub fn string_literal(s: Vec<u8>) -> (r: Self)
        ensures
            r == Object::String(s, StringFormat::Literal),
    {
        Object::String(s, StringFormat::Literal)
    }

    pub fn is_null(&self) -> (r: bool)
        ensures
            r == (*self is Null),
    {
        matches!(*self, Object::Null)
    }

    pub fn enum_variant(&self) -> (r: &'static str)
        ensures
            r == variant_name(*self),
    {
        match self {
            Object::Null => "Null",
            Object::Boolean(_) => "Boolean",
            Object::Integer(_) => "Integer",
            Object::Real(_) => "Real",
            Object::Name(_) => "Name",
            Object::String(_, _) => "String",
            Object::Array(_) => "Array",
            Object::Dictionary(_) => "Dictionary",
            Object::Stream(_) => "Stream",
            Object::Reference(_) => "Reference",
        }
    }

    pub fn as_bool(&self) -> (r: Result<bool, Error>)
        ensures
            match *self {
                Object::Boolean(b) => r == Ok::<bool, Error>(b),
                _ => r == Err::<bool, Error>(Error::ObjectType { expected: "Boolean", found: variant_name(*self) }),
            },
    {
        match self {
            Object::Boolean(value) => Ok(*value),
            _ => Err(Error::ObjectType { expected: "Boolean", found: self.enum_variant() }),
        }
    }

    pub fn as_i64(&self) -> (r: Result<i64, Error>)
        ensures
            match *self {
                Object::Integer(i) => r == Ok::<i64, Error>(i),
                _ => r == Err::<i64, Error>(Error::ObjectType { expected: "Integer", found: variant_name(*self) }),
            },
    {
        match self {
            Object::Integer(value) => Ok(*value),
            _ => Err(Error::ObjectType { expected: "Integer", found: self.enum_variant() }),
        }
    }

    /// The digits of a real number.
    pub fn as_real(&self) -> (r: Result<&[u8], Error>)
        ensures
            match *self {
                Object::Real(digits) => r matches Ok(d) && d@ == digits@,
                _ => r == Err::<&[u8], Error>(Error::ObjectType { expected: "Real", found: variant_name(*self) }),
            },
    {
        match self {
            Object::Real(digits) => Ok(digits.as_slice()),
            _ => Err(Error::ObjectType { expected: "Real", found: self.enum_variant() }),
        }
    }

    pub fn as_name(&self) -> (r: Result<&[u8], Error>)
        ensures
            match *self {
                Object::Name(n) => r matches Ok(d) && d@ == n@,
                _ => r == Err::<&[u8], Error>(Error::ObjectType { expected: "Name", found: variant_name(*self) }),
            },
    {
        match self {
            Object::Name(name) => Ok(name.as_slice()),
            _ => Err(Error::ObjectType { expected: "Name", found: self.enum_variant() }),
        }
    }

    pub fn as_str(&self) -> (r: Result<&[u8], Error>)
        ensures
            match *self {
                Object::String(s, _) => r matches Ok(d) && d@ == s@,
                _ => r == Err::<&[u8], Error>(Error::ObjectType { expected: "String", found: variant_name(*self) }),
            },
    {
        match self {
            Object::String(string, _) => Ok(string.as_slice()),
            _ => Err(Error::ObjectType { expected: "String", found: self.enum_variant() }),
        }
    }

    pub fn as_reference(&self) -> (r: Result<ObjectId, Error>)
        ensures
            match *self {
                Object::Reference(id) => r == Ok::<ObjectId, Error>(id),
                _ => r == Err::<ObjectId, Error>(Error::ObjectType { expected: "Reference", found: variant_name(*self) }),
            },
    {
        match self {
            Object::Reference(id) => Ok(*id),
            _ => Err(Error::ObjectType { expected: "Reference", found: self.enum_variant() }),
        }
    }

    pub fn as_array(&self) -> (r: Result<&Vec<Object>, Error>)
        ensures
            match *self {
                Object::Array(a) => r == Ok::<&Vec<Object>, Error>(&a),
                _ => r == Err::<&Vec<Object>, Error>(Error::ObjectType { expected: "Array", found: variant_name(*self) }),
            },
    {
        match self {
            Object::Array(arr) => Ok(arr),
            _ => Err(Error::ObjectType { expected: "Array", found: self.enum_variant() }),
        }
    }

    pub fn as_dict(&self) -> (r: Result<&Dictionary, Error>)
        ensures
            match *self {
                Object::Dictionary(d) => r == Ok::<&Dictionary, Error>(&d),
                _ => r == Err::<&Dictionary, Error>(Error::ObjectType { expected: "Dictionary", found: variant_name(*self) }),
            },
    {
        match self {
            Object::Dictionary(dict) => Ok(dict),
            _ => Err(Error::ObjectType { expected: "Dictionary", found: self.enum_variant() }),
        }
    }

    /// The type name of a dictionary or of a stream's dictionary.
    pub fn get_type_name(&self) -> (r: Result<&[u8], Error>)
        ensures
            match *self {
                Object::Dictionary(d) => match dict_type(d@) {
                    Some(t) => r matches Ok(n) && n@ == t,
                    None => r is Err,
                },
                Object::Stream(st) => match dict_type(st.dict@) {
                    Some(t) => r matches Ok(n) && n@ == t,
                    None => r is Err,
                },
                _ => r is Err,
            },
    {
        match self {
            Object::Dictionary(dict) => dict.get_type(),
            Object::Stream(stream) => stream.dict.get_type(),
            _ => Err(Error::ObjectType { expected: "Dictionary or Stream", found: self.enum_variant() }),
        }
    }

    pub fn as_stream(&self) -> (r: Result<&Stream, Error>)
        ensures
            match *self {
                Object::Stream(s) => r == Ok::<&Stream, Error>(&s),
                _ => r == Err::<&Stream, Error>(Error::ObjectType { expected: "Stream", found: variant_name(*self) }),
            },
    {
        match self {
            Object::Stream(stream) => Ok(stream),
            _ => Err(Error::ObjectType { expected: "Stream", found: self.enum_variant() }),
        }
    }
}


/// `v` with the entry for `key` set to `value`: replaced where the key is,
/// appended where it is not.
pub open spec fn entries_set<V>(entries: Seq<(Seq<u8>, V)>, key: Seq<u8>, value: V) -> Seq<(Seq<u8>, V)> {
    match find_key(entries, key) {
        Some(i) => entries.update(i, (key, value)),
        None => entries.push((key, value)),
    }
}

/// `entries` without the entry for `key`: the last entry takes its place.
pub open spec fn entries_remove<V>(entries: Seq<(Seq<u8>, V)>, key: Seq<u8>) -> Seq<(Seq<u8>, V)> {
    match find_key(entries, key) {
        Some(i) => entries.update(i, entries.last()).drop_last(),
        None => entries,
    }
}

/// The value of `key` in `entries`.
pub open spec fn entries_get<V>(entries: Seq<(Seq<u8>, V)>, key: Seq<u8>) -> Option<V> {
    match find_key(entries, key) {
        Some(i) => Some(entries[i].1),
        None => None,
    }
}

/// The error for a key that a dictionary lacks.
pub open spec fn missing_key(e: Error, key: Seq<u8>) -> bool {
    e matches Error::DictKey(k) && (vstd::utf8::valid_utf8(key) ==> k@ == vstd::utf8::decode_utf8(key))
}

/// The type name of a dictionary: its /Type name, else `Linearized` for a
/// linearization dictionary.
pub open spec fn dict_type(entries: Seq<(Seq<u8>, Object)>) -> Option<Seq<u8>> {
    match entries_get(entries, type_bytes()) {
        Some(Object::Name(n)) => Some(n@),
        _ => if entries_get(entries, linearized_bytes()) is Some { Some(linearized_bytes()) } else { None },
    }
}

impl Dictionary {
    pub fn new() -> (r: Dictionary)
        ensures
            r@ == Seq::<(Seq<u8>, Object)>::empty(),
    {
        let d = Dictionary(Vec::new());
        assert(d@ =~= Seq::<(Seq<u8>, Object)>::empty());
        d
    }

    /// A dictionary of the entries `pairs`, set in order: a later entry for
    /// a key replaces the value of an earlier one, in its place.
    pub fn from_pairs(pairs: Vec<(Vec<u8>, Object)>) -> (r: Dictionary)
        ensures
            r@ == entries_from(pairs_view(pairs@)),
            keys_distinct(r@),
    {
        let ghost pv = pairs_view(pairs@);
        let mut rest = pairs;
        let mut d = Dictionary::new();
        let ghost mut n: int = 0;
        while rest.len() > 0
            invariant
                0 <= n <= pv.len(),
                pairs_view(rest@) == pv.subrange(n, pv.len() as int),
                d@ == entries_from(pv.subrange(0, n)),
                keys_distinct(d@),
            decreases rest@.len(),
        {
            let ghost r0 = rest@;
            let (k, v) = rest.remove(0);
            proof {
                assert(pairs_view(r0).len() == r0.len());
                assert(pairs_view(r0) == pv.subrange(n, pv.len() as int));
                assert(n < pv.len());
                assert(pairs_view(r0)[0] == pv[n]);
                assert(rest@ == r0.remove(0));
                assert forall|i: int| 0 <= i < rest@.len() implies #[trigger] pairs_view(rest@)[i]
                    == pv.subrange(n + 1, pv.len() as int)[i] by {
                    assert(pairs_view(rest@)[i] == pairs_view(r0)[i + 1]);
                }
                assert(pairs_view(rest@) =~= pv.subrange(n + 1, pv.len() as int));
                assert(pv.subrange(0, n + 1).drop_last() =~= pv.subrange(0, n));
                lemma_set_keeps_distinct(d@, k@, v);
                n = n + 1;
            }
            d.set(k, v);
        }
        assert(pv.subrange(0, n) =~= pv);
        d
    }

    /// A dictionary of the entries `pairs` as they are, in order.
    pub(crate) fn of_entries(pairs: Vec<(Vec<u8>, Object)>) -> (r: Dictionary)
        ensures
            dict_pairs(r) == pairs@,
    {
        Dictionary(pairs)
    }

    /// The entries, in order.
    pub fn entries(&self) -> (r: &Vec<(Vec<u8>, Object)>)
        ensures
            r@ == dict_pairs(*self),
    {
        &self.0
    }

    pub fn len(&self) -> (r: usize)
        ensures
            r == self@.len(),
    {
        self.0.len()
    }

    pub fn is_empty(&self) -> (r: bool)
        ensures
            r == (self@.len() == 0),
    {
        self.0.len() == 0
    }

    /// The index of the entry for `key`.
    fn position(&self, key: &[u8]) -> (r: Option<usize>)
        ensures
            match r {
                Some(i) => find_key(self@, key@) == Some(i as int) && i < self@.len(),
                None => find_key(self@, key@) is None,
            },
    {
        proof {
            lemma_find_key(self@, key@);
        }
        let mut i: usize = 0;
        while i < self.0.len()
            invariant
                i <= self.0@.len(),
                self@.len() == self.0@.len(),
                forall|j: int| 0 <= j < i ==> self@[j].0 != key@,
            decreases self.0@.len() - i,
        {
            if bytes_equal(self.0[i].0.as_slice(), key) {
                assert(self@[i as int].0 == key@);
                proof {
                    lemma_find_key(self@, key@);
                    match find_key(self@, key@) {
                        Some(k) => {
                            if k < i {
                                assert(self@[k].0 != key@);
                            } else if k > i {
                                assert(self@[i as int].0 != key@);
                            }
                        },
                        None => {
                            assert(self@[i as int].0 != key@);
                        },
                    }
                }
                return Some(i);
            }
            i = i + 1;
        }
        None
    }

    pub fn has(&self, key: &[u8]) -> (r: bool)
        ensures
            r == (find_key(self@, key@) is Some),
    {
        self.position(key).is_some()
    }

    pub fn get(&self, key: &[u8]) -> (r: Result<&Object, Error>)
        ensures
            match entries_get(self@, key@) {
                Some(o) => r == Ok::<&Object, Error>(&o),
                None => r matches Err(e) && missing_key(e, key@),
            },
    {
        proof {
            lemma_find_key(self@, key@);
        }
        match self.position(key) {
            Some(i) => {
                Ok(&self.0[i].1)
            },
            None => {
                let k = lossy_string(key);
                Err(Error::DictKey(k))
            },
        }
    }

    pub fn set(&mut self, key: Vec<u8>, value: Object)
        ensures
            final(self)@ == entries_set(old(self)@, key@, value),
    {
        proof {
            lemma_find_key(self@, key@);
        }
        match self.position(key.as_slice()) {
            Some(i) => {
                let ghost k = key@;
                self.0.set(i, (key, value));
                assert(final(self)@ =~= entries_set(old(self)@, k, value));
            },
            None => {
                let ghost k = key@;
                self.0.push((key, value));
                assert(final(self)@ =~= entries_set(old(self)@, k, value));
            },
        }
    }

    pub fn remove(&mut self, key: &[u8]) -> (r: Option<Object>)
        ensures
            r == entries_get(old(self)@, key@),
            final(self)@ == entries_remove(old(self)@, key@),
    {
        proof {
            lemma_find_key(self@, key@);
        }
        match self.position(key) {
            Some(i) => {
                let (_, value) = self.0.swap_remove(i);
                assert(final(self)@ =~= entries_remove(old(self)@, key@));
                Some(value)
            },
            None => None,
        }
    }

    pub fn get_type(&self) -> (r: Result<&[u8], Error>)
        ensures
            match dict_type(self@) {
                Some(t) => r matches Ok(n) && n@ == t,
                None => r is Err,
            },
    {
        let key = type_key();
        match self.get(key.as_slice()) {
            Ok(Object::Name(name)) => Ok(name.as_slice()),
            _ => {
                let lin = linearized_key();
                proof {
                    lemma_find_key(self@, lin@);
                }
                match self.position(lin.as_slice()) {
                    // The key of that entry is `Linearized` itself.
                    Some(i) => {
                        assert(self@[i as int].0 == linearized_bytes());
                        Ok(self.0[i].0.as_slice())
                    },
                    None => Err(Error::DictKey(lossy_string(lin.as_slice()))),
                }
            },
        }
    }

    /// The type name of the dictionary.
    pub fn get_type_name(&self) -> (r: Result<&[u8], Error>)
        ensures
            match dict_type(self@) {
                Some(t) => r matches Ok(n) && n@ == t,
                None => r is Err,
            },
    {
        self.get_type()
    }

    pub fn has_type(&self, name: &[u8]) -> (r: bool)
        ensures
            r == (entries_get(self@, type_bytes()) matches Some(Object::Name(n)) && n@ == name@),
    {
        let key = type_key();
        match self.get(key.as_slice()) {
            Ok(Object::Name(found)) => bytes_equal(found.as_slice(), name),
            _ => false,
        }
    }
}


/// Two streams that agree on whether they may be compressed and where they start.
pub open spec fn same_stream_flags(a: Object, b: Object) -> bool {
    match (a, b) {
        (Object::Stream(x), Object::Stream(y)) => x.allows_compression == y.allows_compression
            && x.start_position == y.start_position,
        _ => true,
    }
}

/// A copy of `o` with the same value.
#[verifier::loop_isolation(false)]
pub fn clone_object(o: &Object) -> (r: Object)
    ensures
        r@ == o@,
        same_stream_flags(r, *o),
    decreases o,
{
    match o {
        Object::Null => Object::Null,
        Object::Boolean(b) => Object::Boolean(*b),
        Object::Integer(i) => Object::Integer(*i),
        Object::Real(r) => Object::Real(copy_bytes(r)),
        Object::Name(n) => Object::Name(copy_bytes(n)),
        Object::String(t, f) => Object::String(copy_bytes(t), *f),
        Object::Array(v) => {
            let mut out: Vec<Object> = Vec::new();
            let mut i: usize = 0;
            while i < v.len()
                invariant
                    i <= v@.len(),
                    out@.len() == i,
                    forall|j: int| 0 <= j < i ==> object_value(#[trigger] out@[j]) == object_value(v@[j]),
                decreases v@.len() - i,
            {
                proof {
                    assert(decreases_to!(*v => v[i as int]));
                }
                let c = clone_object(&v[i]);
                out.push(c);
                i = i + 1;
            }
            let ghost ov = out@;
            let r = Object::Array(out);
            proof {
                lemma_array_value(*v);
                lemma_array_value(out);
                assert(values_of(ov) =~= values_of(v@));
            }
            r
        },
        Object::Dictionary(d) => {
            let c = clone_dictionary(d);
            proof {
                lemma_dictionary_value(*d);
                lemma_dictionary_value(c);
            }
            Object::Dictionary(c)
        },
        Object::Stream(st) => {
            let r = Stream {
                dict: clone_dictionary(&st.dict),
                content: copy_bytes(&st.content),
                allows_compression: st.allows_compression,
                start_position: st.start_position,
            };
            proof {
                lemma_stream_value(*st);
                lemma_stream_value(r);
            }
            Object::Stream(r)
        },
        Object::Reference(id) => Object::Reference(*id),
    }
}

/// A copy of `v`.
pub fn copy_bytes(v: &Vec<u8>) -> (r: Vec<u8>)
    ensures
        r@ == v@,
{
    let mut out: Vec<u8> = Vec::with_capacity(v.len());
    let mut i: usize = 0;
    while i < v.len()
        invariant
            i <= v@.len(),
            out@ == v@.subrange(0, i as int),
        decreases v@.len() - i,
    {
        out.push(v[i]);
        i = i + 1;
        assert(out@ =~= v@.subrange(0, i as int));
    }
    assert(out@ =~= v@);
    out
}

/// A copy of `d` with the same entries.
#[verifier::loop_isolation(false)]
pub fn clone_dictionary(d: &Dictionary) -> (r: Dictionary)
    ensures
        pairs_values(dict_pairs(r)) == pairs_values(dict_pairs(*d)),
    decreases d,
{
    let mut out: Vec<(Vec<u8>, Object)> = Vec::new();
    let mut i: usize = 0;
    while i < d.0.len()
        invariant
            i <= d.0@.len(),
            out@.len() == i,
            forall|j: int| 0 <= j < i ==> (#[trigger] out@[j]).0@ == d.0@[j].0@ && object_value(out@[j].1) == object_value(d.0@[j].1),
        decreases d.0@.len() - i,
    {
        proof {
            assert(decreases_to!(d.0 => d.0[i as int]));
        }
        let v = clone_object(&d.0[i].1);
        out.push((copy_bytes(&d.0[i].0), v));
        i = i + 1;
    }
    let r = Dictionary(out);
    assert(pairs_values(dict_pairs(r)) =~= pairs_values(dict_pairs(*d)));
    r
}

/// Entries with keys and values taken by their values.
pub open spec fn pairs_values(p: Seq<(Vec<u8>, Object)>) -> Seq<(Seq<u8>, PdfValue)> {
    Seq::new(p.len(), |i: int| (p[i].0@, object_value(p[i].1)))
}

/// Two entry sequences with the same keys find a key at the same index.
pub proof fn lemma_find_key_same_keys<V, W>(a: Seq<(Seq<u8>, V)>, b: Seq<(Seq<u8>, W)>, key: Seq<u8>, n: nat)
    requires
        a.len() == b.len(),
        n <= a.len(),
        forall|i: int| 0 <= i < a.len() ==> #[trigger] a[i].0 == b[i].0,
    ensures
        find_key_in(a, key, n) == find_key_in(b, key, n),
    decreases n,
{
    if n > 0 {
        lemma_find_key_same_keys(a, b, key, (n - 1) as nat);
        assert(a[n - 1].0 == b[n - 1].0);
    }
}

/// Looking up a key in a dictionary's value finds the value of what looking
/// it up in the dictionary finds.
pub proof fn lemma_entries_get_values(p: Seq<(Vec<u8>, Object)>, key: Seq<u8>)
    ensures
        entries_get(pairs_values(p), key) == match entries_get(pairs_view(p), key) {
            Some(o) => Some(object_value(o)),
            None => None,
        },
{
    assert(pairs_view(p).len() == p.len() && pairs_values(p).len() == p.len());
    assert forall|i: int| 0 <= i < pairs_view(p).len() implies #[trigger] pairs_view(p)[i].0 == pairs_values(p)[i].0 by {}
    lemma_find_key_same_keys(pairs_view(p), pairs_values(p), key, p.len());
    lemma_find_key(pairs_view(p), key);
}

/// Setting an entry of a dictionary sets it in the dictionary's value.
pub proof fn lemma_pairs_values_set(before: Seq<(Vec<u8>, Object)>, after: Seq<(Vec<u8>, Object)>, key: Seq<u8>, value: Object)
    requires
        pairs_view(after) == entries_set(pairs_view(before), key, value),
    ensures
        pairs_values(after) == entries_set(pairs_values(before), key, object_value(value)),
{
    lemma_find_key_same_keys(pairs_view(before), pairs_values(before), key, before.len());
    lemma_find_key(pairs_view(before), key);
    assert(pairs_view(after).len() == after.len());
    assert(pairs_view(before).len() == before.len());
    match find_key(pairs_view(before), key) {
        Some(i) => {
            assert(after.len() == before.len());
            assert forall|j: int| 0 <= j < after.len() implies pairs_values(after)[j] == entries_set(pairs_values(before), key, object_value(value))[j] by {
                assert(pairs_view(after)[j] == entries_set(pairs_view(before), key, value)[j]);
            }
            assert(pairs_values(after) =~= entries_set(pairs_values(before), key, object_value(value)));
        },
        None => {
            assert(after.len() == before.len() + 1);
            assert forall|j: int| 0 <= j < after.len() implies pairs_values(after)[j] == entries_set(pairs_values(before), key, object_value(value))[j] by {
                assert(pairs_view(after)[j] == entries_set(pairs_view(before), key, value)[j]);
            }
            assert(pairs_values(after) =~= entries_set(pairs_values(before), key, object_value(value)));
        },
    }
}

/// Each value of a dictionary is smaller than the dictionary.
pub proof fn lemma_dictionary_decreases(d: Dictionary, i: int)
    requires
        0 <= i < dict_pairs(d).len(),
    ensures
        decreases_to!(d => dict_pairs(d)[i].1),
{
    assert(decreases_to!(d.0 => d.0[i]));
}

/// The values of a sequence of objects.
pub open spec fn values_of(s: Seq<Object>) -> Seq<PdfValue> {
    Seq::new(s.len(), |i: int| object_value(s[i]))
}

/// The value of an array is the sequence of its elements' values.
pub proof fn lemma_array_value(v: Vec<Object>)
    ensures
        object_value(Object::Array(v)) == PdfValue::Array(values_of(v@)),
{
    if let PdfValue::Array(s) = object_value(Object::Array(v)) {
        assert(s =~= values_of(v@));
    }
}

/// The value of a dictionary is the sequence of its entries' values.
pub proof fn lemma_dictionary_value(d: Dictionary)
    ensures
        object_value(Object::Dictionary(d)) == PdfValue::Dictionary(pairs_values(dict_pairs(d))),
{
    if let PdfValue::Dictionary(s) = object_value(Object::Dictionary(d)) {
        assert(s =~= pairs_values(dict_pairs(d)));
    }
}

/// The value of a stream is the values of its dictionary's entries and its content.
pub proof fn lemma_stream_value(st: Stream)
    ensures
        object_value(Object::Stream(st)) == PdfValue::Stream(pairs_values(dict_pairs(st.dict)), st.content@),
{
    if let PdfValue::Stream(s, c) = object_value(Object::Stream(st)) {
        assert(s =~= pairs_values(dict_pairs(st.dict)));
    }
}


impl From<bool> for Object {
    fn from(value: bool) -> (r: Self) {
        Object::Boolean(value)
    }
}

impl vstd::std_specs::convert::FromSpecImpl<bool> for Object {
    open spec fn obeys_from_spec() -> bool {
        true
    }

    open spec fn from_spec(v: bool) -> Object {
        Object::Boolean(v)
    }
}

impl From<i64> for Object {
    fn from(number: i64) -> (r: Self) {
        Object::Integer(number)
    }
}

impl vstd::std_specs::convert::FromSpecImpl<i64> for Object {
    open spec fn obeys_from_spec() -> bool {
        true
    }

    open spec fn from_spec(v: i64) -> Object {
        Object::Integer(v)
    }
}

impl From<Vec<Object>> for Object {
    fn from(array: Vec<Object>) -> (r: Self) {
        Object::Array(array)
    }
}

impl vstd::std_specs::convert::FromSpecImpl<Vec<Object>> for Object {
    open spec fn obeys_from_spec() -> bool {
        true
    }

    open spec fn from_spec(v: Vec<Object>) -> Object {
        Object::Array(v)
    }
}

impl From<Dictionary> for Object {
    fn from(dict: Dictionary) -> (r: Self) {
        Object::Dictionary(dict)
    }
}

impl vstd::std_specs::convert::FromSpecImpl<Dictionary> for Object {
    open spec fn obeys_from_spec() -> bool {
        true
    }

    open spec fn from_spec(v: Dictionary) -> Object {
        Object::Dictionary(v)
    }
}

impl From<Stream> for Object {
    fn from(stream: Stream) -> (r: Self) {
        Object::Stream(stream)
    }
}

impl vstd::std_specs::convert::FromSpecImpl<Stream> for Object {
    open spec fn obeys_from_spec() -> bool {
        true
    }

    open spec fn from_spec(v: Stream) -> Object {
        Object::Stream(v)
    }
}

impl From<ObjectId> for Object {
    fn from(id: ObjectId) -> (r: Self) {
        Object::Reference(id)
    }
}

impl vstd::std_specs::convert::FromSpecImpl<ObjectId> for Object {
    open spec fn obeys_from_spec() -> bool {
        true
    }

    open spec fn from_spec(v: ObjectId) -> Object {
        Object::Reference(v)
    }
}

impl Clone for Object {
    fn clone(&self) -> (r: Self)
        ensures
            r@ == self@,
    {
        clone_object(self)
    }
}

impl Clone for Dictionary {
    fn clone(&self) -> (r: Self)
        ensures
            pairs_values(dict_pairs(r)) == pairs_values(dict_pairs(*self)),
    {
        clone_dictionary(self)
    }
}

/// What `extend` makes of an entry that both dictionaries hold, with `old`
/// the value already there and `value` the one added: dictionaries are
/// merged in turn, arrays joined, two integers, reals, strings or references
/// put in an array; a null, boolean, name or stream already there stays;
/// otherwise both are kept in an array, the added array's items after the
/// old value, or the added value before the old one.
pub open spec fn merged_value(old: PdfValue, value: PdfValue) -> PdfValue
    decreases value,
{
    match (old, value) {
        (PdfValue::Dictionary(od), PdfValue::Dictionary(d)) => PdfValue::Dictionary(extended_entries(od, d)),
        (PdfValue::Array(oa), PdfValue::Array(a)) => PdfValue::Array(oa + a),
        (PdfValue::Integer(_), PdfValue::Integer(_)) => PdfValue::Array(seq![old, value]),
        (PdfValue::Real(_), PdfValue::Real(_)) => PdfValue::Array(seq![old, value]),
        (PdfValue::Str(_, _), PdfValue::Str(_, _)) => PdfValue::Array(seq![old, value]),
        (PdfValue::Reference(_, _), PdfValue::Reference(_, _)) => PdfValue::Array(seq![old, value]),
        (PdfValue::Null, _) => old,
        (PdfValue::Boolean(_), _) => old,
        (PdfValue::Name(_), _) => old,
        (PdfValue::Stream(_, _), _) => old,
        (_, PdfValue::Array(a)) => PdfValue::Array(seq![old] + a),
        (_, _) => PdfValue::Array(seq![value, old]),
    }
}

/// The entries of a dictionary after the entries `other` are added one by
/// one: a new key is appended, an existing one keeps its place and takes the
/// merged value.
pub open spec fn extended_entries(entries: Seq<(Seq<u8>, PdfValue)>, other: Seq<(Seq<u8>, PdfValue)>)
    -> Seq<(Seq<u8>, PdfValue)>
    decreases other,
{
    if other.len() == 0 {
        entries
    } else {
        let e = extended_entries(entries, other.drop_last());
        let last = other.last();
        proof {
            assert(decreases_to!(other => other[other.len() - 1]));
        }
        match entries_get(e, last.0) {
            Some(o) => entries_set(e, last.0, merged_value(o, last.1)),
            None => entries_set(e, last.0, last.1),
        }
    }
}

/// Appends copies of the objects `v` to `out`.
fn push_copies(out: &mut Vec<Object>, v: &Vec<Object>)
    ensures
        values_of(final(out)@) == values_of(old(out)@) + values_of(v@),
{
    let ghost start = out@;
    let mut i: usize = 0;
    while i < v.len()
        invariant
            i <= v@.len(),
            values_of(out@) == values_of(start) + values_of(v@.subrange(0, i as int)),
        decreases v@.len() - i,
    {
        let c = clone_object(&v[i]);
        let ghost before = out@;
        out.push(c);
        assert(values_of(out@) =~= values_of(before) + seq![object_value(v@[i as int])]);
        assert(values_of(v@.subrange(0, i + 1)) =~= values_of(v@.subrange(0, i as int)) + seq![object_value(v@[i as int])]);
        i = i + 1;
    }
    assert(v@.subrange(0, v@.len() as int) =~= v@);
}

/// An array of copies of `a` and then `b`.
fn pair_array(a: &Object, b: &Object) -> (r: Object)
    ensures
        r@ == PdfValue::Array(seq![a@, b@]),
{
    let v = vec![clone_object(a), clone_object(b)];
    proof {
        lemma_array_value(v);
        assert(values_of(v@) =~= seq![a@, b@]);
    }
    Object::Array(v)
}

/// The object that `extend` keeps for a key that both dictionaries hold.
fn merge_object(old: &Object, value: &Object) -> (r: Object)
    ensures
        r@ == merged_value(old@, value@),
    decreases value, 0nat,
{
    proof {
        lemma_array_value_all();
    }
    match (old, value) {
        (Object::Dictionary(od), Object::Dictionary(d)) => {
            let mut merged = clone_dictionary(od);
            merged.extend(d);
            proof {
                lemma_dictionary_value(merged);
                lemma_dictionary_value(*od);
                lemma_dictionary_value(*d);
            }
            Object::Dictionary(merged)
        },
        (Object::Array(oa), Object::Array(a)) => {
            let mut out: Vec<Object> = Vec::new();
            push_copies(&mut out, oa);
            push_copies(&mut out, a);
            proof {
                lemma_array_value(out);
                lemma_array_value(*oa);
                lemma_array_value(*a);
                assert(values_of(Seq::<Object>::empty()) =~= Seq::<PdfValue>::empty());
            }
            Object::Array(out)
        },
        (Object::Integer(_), Object::Integer(_)) => pair_array(old, value),
        (Object::Real(_), Object::Real(_)) => pair_array(old, value),
        (Object::String(_, _), Object::String(_, _)) => pair_array(old, value),
        (Object::Reference(_), Object::Reference(_)) => pair_array(old, value),
        (Object::Null, _) => clone_object(old),
        (Object::Boolean(_), _) => clone_object(old),
        (Object::Name(_), _) => clone_object(old),
        (Object::Stream(_), _) => clone_object(old),
        (_, Object::Array(a)) => {
            let mut out: Vec<Object> = vec![clone_object(old)];
            let ghost first = out@;
            push_copies(&mut out, a);
            proof {
                lemma_array_value(out);
                lemma_array_value(*a);
                assert(values_of(first) =~= seq![old@]);
            }
            Object::Array(out)
        },
        (_, _) => pair_array(value, old),
    }
}

/// The value of every array is the sequence of its elements' values.
proof fn lemma_array_value_all()
    ensures
        forall|v: Vec<Object>| #[trigger] object_value(Object::Array(v)) == PdfValue::Array(values_of(v@)),
{
    assert forall|v: Vec<Object>| #[trigger] object_value(Object::Array(v)) == PdfValue::Array(values_of(v@)) by {
        lemma_array_value(v);
    }
}

impl Dictionary {
    /// Adds the entries of `other`: a key this dictionary lacks is appended
    /// with its value; for a key it holds, the two values are merged as
    /// `merged_value` says.
    pub fn extend(&mut self, other: &Dictionary)
        ensures
            pairs_values(dict_pairs(*final(self))) == extended_entries(pairs_values(dict_pairs(*old(self))),
                pairs_values(dict_pairs(*other))),
        decreases other, 1nat,
    {
        let ghost start = pairs_values(dict_pairs(*self));
        let ghost others = pairs_values(dict_pairs(*other));
        let mut i: usize = 0;
        while i < other.0.len()
            invariant
                i <= other.0@.len(),
                others == pairs_values(dict_pairs(*other)),
                pairs_values(dict_pairs(*self)) == extended_entries(start, others.subrange(0, i as int)),
            decreases other.0@.len() - i,
        {
            proof {
                lemma_dictionary_decreases(*other, i as int);
                lemma_find_key(self@, other.0@[i as int].0@);
                lemma_entries_get_values(dict_pairs(*self), other.0@[i as int].0@);
                assert(others.subrange(0, i + 1).drop_last() =~= others.subrange(0, i as int));
            }
            let ghost before = dict_pairs(*self);
            match self.position(other.0[i].0.as_slice()) {
                Some(p) => {
                    let merged = merge_object(&self.0[p].1, &other.0[i].1);
                    let key = copy_bytes(&other.0[i].0);
                    self.set(key, merged);
                    proof {
                        lemma_pairs_values_set(before, dict_pairs(*self), other.0@[i as int].0@, merged);
                    }
                },
                None => {
                    let v = clone_object(&other.0[i].1);
                    let key = copy_bytes(&other.0[i].0);
                    self.set(key, v);
                    proof {
                        lemma_pairs_values_set(before, dict_pairs(*self), other.0@[i as int].0@, v);
                    }
                },
            }
            i = i + 1;
        }
        assert(others.subrange(0, other.0@.len() as int) =~= others);
    }
}

/// The filter names that a /Filter value gives: one name, or an array of names.
pub open spec fn filter_names(o: Object) -> Option<Seq<Seq<u8>>> {
    match o {
        Object::Name(n) => Some(seq![n@]),
        Object::Array(a) => if forall|i: int| 0 <= i < a@.len() ==> #[trigger] a@[i] is Name {
            Some(Seq::new(a@.len(), |i: int| a@[i]->Name_0@))
        } else {
            None
        },
        _ => None,
    }
}

/// The index of the first element of `a` that is not a name.
pub open spec fn first_non_name(a: Seq<Object>) -> int {
    choose|i: int| 0 <= i < a.len() && !(a[i] is Name) && forall|j: int| 0 <= j < i ==> #[trigger] a[j] is Name
}

impl Stream {
    pub fn new(dict: Dictionary, content: Vec<u8>) -> (r: Stream)
        ensures
            r.dict@ == entries_set(dict@, length_bytes(), Object::Integer(content@.len() as i64)),
            r.content@ == content@,
            r.allows_compression,
            r.start_position is None,
    {
        let mut dict = dict;
        dict.set(length_key(), Object::Integer(content.len() as i64));
        Stream { dict, content, allows_compression: true, start_position: None }
    }

    pub fn with_position(dict: Dictionary, position: usize) -> (r: Stream)
        ensures
            r.dict == dict,
            r.content@.len() == 0,
            r.allows_compression,
            r.start_position == Some(position),
    {
        Stream { dict, content: Vec::new(), allows_compression: true, start_position: Some(position) }
    }

    /// Default is that the stream may be compressed. On font streams,
    /// set this to false, otherwise the font will be corrupt
    pub fn with_compression(self, allows_compression: bool) -> (r: Stream)
        ensures
            r.dict == self.dict,
            r.content == self.content,
            r.allows_compression == allows_compression,
            r.start_position == self.start_position,
    {
        let mut s = self;
        s.allows_compression = allows_compression;
        s
    }

    /// The names of the filters of the stream, in decoding order.
    #[verifier::loop_isolation(false)]
    pub fn filters(&self) -> (r: Result<Vec<&[u8]>, Error>)
        ensures
            match entries_get(self.dict@, filter_bytes()) {
                None => r matches Err(e) && missing_key(e, filter_bytes()),
                Some(f) => match filter_names(f) {
                    Some(names) => r matches Ok(v) && v@.len() == names.len()
                        && forall|i: int| 0 <= i < names.len() ==> #[trigger] v@[i]@ == names[i],
                    None => match f {
                        Object::Array(a) => r == Err::<Vec<&[u8]>, Error>(Error::ObjectType {
                            expected: "Name",
                            found: variant_name(a@[first_non_name(a@)]),
                        }),
                        _ => r == Err::<Vec<&[u8]>, Error>(Error::ObjectType { expected: "Name or Array", found: variant_name(f) }),
                    },
                },
            },
    {
        let key = filter_key();
        let filter = self.dict.get(key.as_slice())?;
        match filter {
            Object::Name(name) => {
                let mut v: Vec<&[u8]> = Vec::new();
                v.push(name.as_slice());
                Ok(v)
            },
            Object::Array(names) => {
                let mut v: Vec<&[u8]> = Vec::new();
                let mut i: usize = 0;
                while i < names.len()
                    invariant
                        i <= names@.len(),
                        v@.len() == i,
                        forall|j: int| 0 <= j < i ==> #[trigger] names@[j] is Name && v@[j]@ == names@[j]->Name_0@,
                    decreases names@.len() - i,
                {
                    match &names[i] {
                        Object::Name(n) => v.push(n.as_slice()),
                        other => {
                            proof {
                                assert(!(names@[i as int] is Name));
                                assert(exists|k: int| 0 <= k < names@.len() && !(names@[k] is Name)
                                    && forall|j: int| 0 <= j < k ==> #[trigger] names@[j] is Name);
                                let k = first_non_name(names@);
                                if k < i {
                                    assert(names@[k] is Name);
                                } else if k > i {
                                    assert(names@[i as int] is Name);
                                }
                                assert(k == i);
                                assert(filter_names(*filter) is None);
                            }
                            return Err(Error::ObjectType { expected: "Name", found: other.enum_variant() });
                        },
                    }
                    i = i + 1;
                }
                Ok(v)
            },
            _ => Err(Error::ObjectType { expected: "Name or Array", found: filter.enum_variant() }),
        }
    }

    pub fn set_content(&mut self, content: Vec<u8>)
        ensures
            final(self).content@ == content@,
            final(self).dict@ == entries_set(old(self).dict@, length_bytes(), Object::Integer(content@.len() as i64)),
            final(self).allows_compression == old(self).allows_compression,
            final(self).start_position == old(self).start_position,
    {
        let len = content.len() as i64;
        self.content = content;
        self.dict.set(length_key(), Object::Integer(len));
    }

    pub fn set_plain_content(&mut self, content: Vec<u8>)
        ensures
            final(self).content@ == content@,
            final(self).dict@ == entries_set(
                entries_remove(entries_remove(old(self).dict@, decode_parms_bytes()), filter_bytes()),
                length_bytes(),
                Object::Integer(content@.len() as i64),
            ),
            final(self).allows_compression == old(self).allows_compression,
            final(self).start_position == old(self).start_position,
    {
        let dp = decode_parms_key();
        self.dict.remove(dp.as_slice());
        let f = filter_key();
        self.dict.remove(f.as_slice());
        self.dict.set(length_key(), Object::Integer(content.len() as i64));
        self.content = content;
    }

    pub fn is_compressed(&self) -> (r: bool)
        ensures
            r == (entries_get(self.dict@, filter_bytes()) is Some),
    {
        let f = filter_key();
        self.dict.get(f.as_slice()).is_ok()
    }
}

} // verus!

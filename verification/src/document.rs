//! A PDF document: its objects by identifier, its trailer and its
//! cross-reference table.

use std::collections::BTreeMap;
use vstd::prelude::*;
use crate::error::Error;
use crate::object::{Object, ObjectId, Dictionary, entries_get};
use crate::xref::{Xref, XrefType};
use crate::names::{encrypt_bytes, encrypt_key, prev_key};
use crate::encryption::EncryptionState;

verus! {

broadcast use vstd::std_specs::btree::group_btree_axioms;

/// How many references in a row a lookup follows before it gives up.
pub const DEREF_LIMIT: usize = 128;

/// A PDF document.
///
/// This can both be a combination of multiple incremental updates
/// or just one (the last) incremental update in a PDF file.
#[derive(Debug)]
pub struct Document {
    /// The version of the PDF specification to which the file conforms.
    pub version: String,
    /// The trailer gives the location of the cross-reference table and of certain special objects.
    pub trailer: Dictionary,
    /// The cross-reference table contains locations of the indirect objects.
    pub reference_table: Xref,
    /// The objects that make up the document contained in the file.
    pub objects: BTreeMap<ObjectId, Object>,
    /// Current maximum object id within the document.
    pub max_id: u32,
    /// Current maximum object id within Bookmarks.
    pub max_bookmark_id: u32,
    /// The byte the cross-reference table starts at.
    /// This value is only set during reading, but not when writing the file.
    /// It is used to support incremental updates in PDFs.
    pub xref_start: usize,
    /// The state of the security handler once the document has been decrypted.
    pub encryption_state: Option<EncryptionState>,
}

/// Following `o` through references in `objects`, with `id` the last
/// reference followed and `n` references followed so far: the identifier of
/// the last reference and the object that is no reference; an error for a
/// missing object or more than `DEREF_LIMIT` references.
pub open spec fn deref_from(objects: Map<ObjectId, Object>, o: Object, id: Option<ObjectId>, n: int)
    -> Result<(Option<ObjectId>, Object), Error>
    decreases DEREF_LIMIT - n,
{
    match o {
        Object::Reference(r) => if !objects.contains_key(r) {
            Err(Error::ObjectNotFound)
        } else if n + 1 > DEREF_LIMIT || n < 0 {
            Err(Error::ReferenceLimit)
        } else {
            deref_from(objects, objects[r], Some(r), n + 1)
        },
        _ => Ok((id, o)),
    }
}

/// The object with identifier `id`, references followed.
pub open spec fn object_of(objects: Map<ObjectId, Object>, id: ObjectId) -> Result<Object, Error> {
    if !objects.contains_key(id) {
        Err(Error::ObjectNotFound)
    } else {
        match deref_from(objects, objects[id], None, 0) {
            Ok((_, o)) => Ok(o),
            Err(e) => Err(e),
        }
    }
}

/// The encryption dictionary of a document: the dictionary that the
/// trailer's /Encrypt refers to.
pub open spec fn encrypt_dict(doc: Document) -> Option<Dictionary> {
    match entries_get(doc.trailer@, encrypt_bytes()) {
        Some(Object::Reference(id)) => match object_of(doc.objects@, id) {
            Ok(Object::Dictionary(d)) => Some(d),
            _ => None,
        },
        _ => None,
    }
}

impl Document {
    /// Create new PDF document.
    pub fn new() -> (r: Document)
        ensures
            r.version@ == "1.4"@,
            r.trailer@.len() == 0,
            r.reference_table.entries@ == Map::<u32, crate::xref::XrefEntry>::empty(),
            r.reference_table.size == 0,
            r.reference_table.cross_reference_type == XrefType::CrossReferenceStream,
            r.objects@ == Map::<ObjectId, Object>::empty(),
            r.max_id == 0,
            r.max_bookmark_id == 0,
            r.xref_start == 0,
            r.encryption_state is None,
    {
        Document {
            version: "1.4".to_string(),
            trailer: Dictionary::new(),
            reference_table: Xref::new(0, XrefType::CrossReferenceStream),
            objects: BTreeMap::new(),
            max_id: 0,
            max_bookmark_id: 0,
            xref_start: 0,
            encryption_state: None,
        }
    }

    /// Create new PDF document with version.
    pub fn with_version(version: &str) -> (r: Document)
        ensures
            r.version@ == version@,
            r.trailer@.len() == 0,
            r.objects@ == Map::<ObjectId, Object>::empty(),
            r.max_id == 0,
            r.max_bookmark_id == 0,
            r.xref_start == 0,
            r.encryption_state is None,
    {
        let mut document = Document::new();
        document.version = version.to_string();
        document
    }

    /// Create a new PDF document that is an incremental update to a previous document.
    pub fn new_from_prev(prev: &Document) -> (r: Document)
        ensures
            r.version@ == "1.4"@,
            crate::object::pairs_values(crate::object::dict_pairs(r.trailer)) == crate::object::entries_set(
                crate::object::pairs_values(crate::object::dict_pairs(prev.trailer)),
                crate::names::prev_bytes(),
                crate::object::PdfValue::Integer(prev.xref_start as i64),
            ),
            r.reference_table.entries@ == Map::<u32, crate::xref::XrefEntry>::empty(),
            r.reference_table.size == 0,
            r.reference_table.cross_reference_type == prev.reference_table.cross_reference_type,
            r.objects@ == Map::<ObjectId, Object>::empty(),
            r.max_id == prev.max_id,
            r.max_bookmark_id == prev.max_bookmark_id,
            r.xref_start == 0,
            r.encryption_state is None,
    {
        let mut new_trailer = crate::object::clone_dictionary(&prev.trailer);
        let ghost before = crate::object::dict_pairs(new_trailer);
        let key = prev_key();
        let ghost k = key;
        let value = Object::Integer(prev.xref_start as i64);
        let ghost v = value;
        new_trailer.set(key, value);
        proof {
            crate::object::lemma_pairs_values_set(before, crate::object::dict_pairs(new_trailer), k@, v);
        }
        Document {
            version: "1.4".to_string(),
            trailer: new_trailer,
            reference_table: Xref::new(0, prev.reference_table.cross_reference_type),
            objects: BTreeMap::new(),
            max_id: prev.max_id,
            max_bookmark_id: prev.max_bookmark_id,
            xref_start: 0,
            encryption_state: None,
        }
    }

    /// Follow references if the supplied object is a reference.
    ///
    /// Returns a tuple of an optional object id and final object.
    /// The object id will be None if the object was not a
    /// reference. Otherwise, it will be the last object id in the
    /// reference chain.
    pub fn dereference<'a>(&'a self, object: &'a Object) -> (r: Result<(Option<ObjectId>, &'a Object), Error>)
        ensures
            match deref_from(self.objects@, *object, None, 0) {
                Ok((id, o)) => r matches Ok((id2, o2)) && id2 == id && *o2 == o,
                Err(e) => r matches Err(e2) && e2 == e,
            },
    {
        let mut nb_deref: usize = 0;
        let mut id: Option<ObjectId> = None;
        let mut current = object;
        loop
            invariant
                nb_deref <= DEREF_LIMIT,
                deref_from(self.objects@, *object, None, 0) == deref_from(self.objects@, *current, id, nb_deref as int),
            decreases DEREF_LIMIT - nb_deref,
        {
            match current {
                Object::Reference(ref_id) => {
                    id = Some(*ref_id);
                    match self.objects.get(ref_id) {
                        Some(next) => {
                            current = next;
                        },
                        None => {
                            return Err(Error::ObjectNotFound);
                        },
                    }
                    nb_deref = nb_deref + 1;
                    if nb_deref > DEREF_LIMIT {
                        return Err(Error::ReferenceLimit);
                    }
                },
                _ => {
                    return Ok((id, current));
                },
            }
        }
    }

    /// Get object by object id, will iteratively dereference a referenced object.
    pub fn get_object(&self, id: ObjectId) -> (r: Result<&Object, Error>)
        ensures
            match object_of(self.objects@, id) {
                Ok(o) => r matches Ok(o2) && *o2 == o,
                Err(e) => r matches Err(e2) && e2 == e,
            },
    {
        match self.objects.get(&id) {
            Some(object) => match self.dereference(object) {
                Ok((_, o)) => Ok(o),
                Err(e) => Err(e),
            },
            None => Err(Error::ObjectNotFound),
        }
    }

    /// Determines if an object exists in the current document (or incremental update.)
    /// with the given `ObjectId`.
    pub fn has_object(&self, id: ObjectId) -> (r: bool)
        ensures
            r == self.objects@.contains_key(id),
    {
        self.objects.get(&id).is_some()
    }

    /// Get dictionary object by id.
    pub fn get_dictionary(&self, id: ObjectId) -> (r: Result<&Dictionary, Error>)
        ensures
            match object_of(self.objects@, id) {
                Ok(Object::Dictionary(d)) => r matches Ok(d2) && *d2 == d,
                _ => r is Err,
            },
    {
        match self.get_object(id) {
            Ok(o) => o.as_dict(),
            Err(e) => Err(e),
        }
    }

    /// The encryption dictionary: the dictionary that the trailer's /Encrypt
    /// refers to.
    pub fn get_encrypted(&self) -> (r: Result<&Dictionary, Error>)
        ensures
            match encrypt_dict(*self) {
                Some(d) => r matches Ok(d2) && *d2 == d,
                None => r is Err,
            },
    {
        match self.trailer.get(encrypt_key().as_slice()) {
            Ok(o) => match o.as_reference() {
                Ok(id) => self.get_dictionary(id),
                Err(e) => Err(e),
            },
            Err(e) => Err(e),
        }
    }

    /// Return true is PDF document is encrypted
    pub fn is_encrypted(&self) -> (r: bool)
        ensures
            r == encrypt_dict(*self) is Some,
    {
        self.get_encrypted().is_ok()
    }

    /// The identifiers of the objects, each once, in the order of the map.
    pub fn object_ids(&self) -> (r: Vec<ObjectId>)
        ensures
            r@.to_set() == self.objects@.dom(),
            r@.no_duplicates(),
    {
        let mut ids: Vec<ObjectId> = Vec::new();
        proof {
            vstd::std_specs::btree::axiom_spec_keys_iter(&self.objects);
        }
        let ghost all = vstd::std_specs::iter::IteratorSpec::remaining(
            &vstd::std_specs::btree::spec_keys_iter(&self.objects),
        ).unref();
        for k in it: self.objects.keys()
            invariant
                ids@ == it.seq().unref().subrange(0, it.index() as int),
                it.seq().unref().to_set() == self.objects@.dom(),
                it.seq().unref().no_duplicates(),
                all == it.seq().unref(),
        {
            ids.push(*k);
            assert(ids@ =~= it.seq().unref().subrange(0, it.index() + 1));
        }
        assert(ids@ =~= all);
        ids
    }

    /// Create an object ID.
    pub fn new_object_id(&mut self) -> (r: ObjectId)
        requires
            old(self).max_id < u32::MAX,
        ensures
            final(self).max_id == old(self).max_id + 1,
            r == (final(self).max_id, 0u16),
            final(self).objects@ == old(self).objects@,
            final(self).trailer == old(self).trailer,
    {
        self.max_id = self.max_id + 1;
        (self.max_id, 0)
    }

    /// Add PDF object into document's object list.
    pub fn add_object(&mut self, object: Object) -> (r: ObjectId)
        requires
            old(self).max_id < u32::MAX,
        ensures
            final(self).max_id == old(self).max_id + 1,
            r == (final(self).max_id, 0u16),
            final(self).objects@ == old(self).objects@.insert(r, object),
            final(self).trailer == old(self).trailer,
    {
        self.max_id = self.max_id + 1;
        let id = (self.max_id, 0u16);
        self.objects.insert(id, object);
        id
    }
}

} // verus!

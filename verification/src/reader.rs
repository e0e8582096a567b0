//! Reading a PDF file from its bytes: the cross-reference data from its end,
//! then each indirect object at the offset that the cross-reference table
//! gives.

use std::collections::BTreeMap;
use vstd::prelude::*;
use crate::document::Document;
use crate::error::Error;
use crate::object::{Object, ObjectId, PdfValue, Dictionary, Stream, entries_get, entries_set, pairs_values, dict_pairs};
use crate::parser::{
    has_word, space_end, spec_unsigned, eol_len, spec_direct_objects, space, unsigned_int, tag, eol,
    direct_objects, lemma_space_end, lemma_digits_end,
};
use crate::xref::{Xref, XrefEntry, XrefType};
use crate::names::{length_bytes, length_key, size_bytes, size_key};
use crate::file_structure::{spec_xref_table, spec_trailer, spec_xref_start, xref, trailer, xref_start};
use crate::xref_stream::{decode_xref_stream, xref_stream_result};
use crate::decode::{stream_decodable, decompressed_as};
use crate::error::{XrefError, ParseError};
use crate::object_stream::{ObjectStream, object_stream_read};
use crate::names::{obj_stm_bytes, obj_stm_key, type_bytes, prev_bytes, prev_key, xref_stm_bytes, xref_stm_key,
    encrypt_bytes, encrypt_key};
use crate::object::{clone_object, entries_remove, object_value};
use crate::document::{deref_from, object_of, encrypt_dict};
use vstd::utf8::{valid_utf8, decode_utf8};
use crate::encryption::EncryptionState;

verus! {

broadcast use vstd::std_specs::btree::group_btree_axioms;

/// `obj`.
pub open spec fn obj_word() -> Seq<u8> {
    seq![111u8, 98, 106]
}

/// `stream`.
pub open spec fn stream_word() -> Seq<u8> {
    seq![115u8, 116, 114, 101, 97, 109]
}

/// `endstream`.
pub open spec fn endstream_word() -> Seq<u8> {
    seq![101u8, 110, 100, 115, 116, 114, 101, 97, 109]
}

/// The first position from `p` on that holds neither a space nor a tab.
pub open spec fn blanks_end(s: Seq<u8>, p: int) -> int
    decreases s.len() - p,
{
    if 0 <= p < s.len() && (s[p] == 32 || s[p] == 9) { blanks_end(s, p + 1) } else { p }
}

/// The head of an indirect object at `p`: white-space, its number, its
/// generation and `obj`, each followed by white-space. Gives its identifier
/// and where its object starts.
pub open spec fn spec_object_header(s: Seq<u8>, p: int) -> Option<(ObjectId, int)> {
    match spec_unsigned(s, space_end(s, p), u32::MAX as nat) {
        Some((n, e1)) => match spec_unsigned(s, space_end(s, e1), u16::MAX as nat) {
            Some((g, e2)) => {
                let q = space_end(s, e2);
                if has_word(s, q, obj_word()) { Some(((n as u32, g as u16), space_end(s, q + 3))) } else { None }
            },
            None => None,
        },
        None => None,
    }
}

/// The head of a stream at `p`: its dictionary, white-space, `stream`,
/// spaces or tabs and an end-of-line marker. Gives the dictionary and where
/// the data starts.
pub open spec fn spec_stream_head(s: Seq<u8>, p: int) -> Option<(Seq<(Seq<u8>, PdfValue)>, int)> {
    match spec_direct_objects(s, p) {
        Some((PdfValue::Dictionary(entries), e)) => {
            let q = space_end(s, e);
            if has_word(s, q, stream_word()) {
                let b = blanks_end(s, q + 6);
                match eol_len(s, b) {
                    Some(n) => Some((entries, b + n)),
                    None => None,
                }
            } else {
                None
            }
        },
        _ => None,
    }
}

/// Whether `length` bytes of data at `d` are followed, after an optional
/// end-of-line marker, by `endstream`.
pub open spec fn stream_data_ends(s: Seq<u8>, d: int, length: int) -> bool {
    let e = d + length;
    e <= s.len() && has_word(s, match eol_len(s, e) { Some(n) => e + n, None => e }, endstream_word())
}

/// The generation of a cross-reference entry in use.
pub open spec fn entry_generation(e: XrefEntry) -> Option<u16> {
    match e {
        XrefEntry::Normal { generation, .. } => Some(generation),
        _ => None,
    }
}

/// The object numbers of the table `xref` whose object is in `seen`, with
/// the generation of its entry.
pub open spec fn visited(xref: Map<u32, XrefEntry>, seen: Seq<ObjectId>) -> Set<u32> {
    Set::new(|k: u32| xref.contains_key(k) && (entry_generation(xref[k]) matches Some(g) && seen.contains((k, g))))
}

/// How many objects of the table can still be read while following
/// references: those not yet in `seen`.
pub open spec fn unvisited(xref: Map<u32, XrefEntry>, seen: Seq<ObjectId>) -> int {
    xref.dom().len() - visited(xref, seen).len()
}

pub proof fn lemma_visited(xref: Map<u32, XrefEntry>, seen: Seq<ObjectId>, id: ObjectId)
    requires
        xref.dom().finite(),
        !seen.contains(id),
        xref.contains_key(id.0),
        entry_generation(xref[id.0]) == Some(id.1),
    ensures
        0 <= unvisited(xref, seen.push(id)) < unvisited(xref, seen),
{
    let a = visited(xref, seen);
    let b = visited(xref, seen.push(id));
    assert(b =~= a.insert(id.0)) by {
        assert forall|k: u32| b.contains(k) implies a.insert(id.0).contains(k) by {
            if k != id.0 {
                let g = entry_generation(xref[k])->0;
                let i = choose|i: int| 0 <= i < seen.push(id).len() && seen.push(id)[i] == (k, g);
                assert(i < seen.len());
                assert(seen[i] == (k, g));
            }
        }
        assert forall|k: u32| a.insert(id.0).contains(k) implies b.contains(k) by {
            if k == id.0 {
                assert(seen.push(id)[seen.len() as int] == id);
            } else {
                let g = entry_generation(xref[k])->0;
                let i = choose|i: int| 0 <= i < seen.len() && seen[i] == (k, g);
                assert(seen.push(id)[i] == (k, g));
            }
        }
    }
    assert(!a.contains(id.0));
    assert(a.subset_of(xref.dom()));
    assert(b.subset_of(xref.dom()));
    vstd::set_lib::lemma_len_subset(b, xref.dom());
    vstd::set_lib::lemma_len_subset(a, xref.dom());
}

/// The object that starts at `p` in `s`, a part of the file `file` whose
/// cross-reference table is `xref`: a stream, where a stream's head stands
/// there, or a direct object. A stream's /Length may refer to an object,
/// which is read from the file in turn unless it is in `seen`. A stream whose length is unknown keeps no
/// data and the position where its data starts; one whose data does not end
/// as its length says is read as its dictionary. Gives the object's value
/// and that position, or nothing where no object can be read; a negative
/// length makes the object unreadable.
pub open spec fn spec_object_at(s: Seq<u8>, file: Seq<u8>, xref: Map<u32, XrefEntry>, p: int, seen: Seq<ObjectId>)
    -> Option<(PdfValue, Option<int>)>
    decreases unvisited(xref, seen), 1int,
    when xref.dom().finite() && unvisited(xref, seen) >= 0
{
    match spec_stream_head(s, p) {
        Some((entries, d)) => {
            let length: Option<i64> = match entries_get(entries, length_bytes()) {
                Some(PdfValue::Reference(n, g)) => match spec_get_object(file, xref, (n, g), seen) {
                    Ok((PdfValue::Integer(v), _)) => Some(v),
                    _ => None,
                },
                Some(PdfValue::Integer(v)) => Some(v),
                _ => None,
            };
            match length {
                Some(l) => if l < 0 {
                    None
                } else if stream_data_ends(s, d, (l as usize) as int) {
                    Some((PdfValue::Stream(entries_set(entries, length_bytes(), PdfValue::Integer((l as usize) as i64)),
                        s.subrange(d, d + (l as usize) as int)), None))
                } else {
                    Some((PdfValue::Dictionary(entries), None))
                },
                None => Some((PdfValue::Stream(entries, Seq::empty()), Some(d))),
            }
        },
        None => match spec_direct_objects(s, p) {
            Some((v, _)) => Some((v, None)),
            None => None,
        },
    }
}

/// The indirect object at `offset`: its identifier, which must be
/// `expected` where that is given, and its object.
pub open spec fn spec_read_object(s: Seq<u8>, file: Seq<u8>, xref: Map<u32, XrefEntry>, offset: int,
    expected: Option<ObjectId>, seen: Seq<ObjectId>) -> Result<(ObjectId, PdfValue, Option<int>), Error>
    decreases unvisited(xref, seen), 2int,
    when xref.dom().finite() && unvisited(xref, seen) >= 0
{
    if offset > s.len() {
        Err(Error::Offset(offset as usize))
    } else {
        match spec_object_header(s, offset) {
            None => Err(Error::OldParse { offset: offset as usize }),
            Some((id, p)) => if expected matches Some(x) && x != id {
                Err(Error::ObjectIdMismatch)
            } else {
                match spec_object_at(s, file, xref, p, seen) {
                    Some((v, pos)) => Ok((id, v, pos)),
                    None => Err(Error::OldParse { offset: offset as usize }),
                }
            },
        }
    }
}

/// The object `id` as the table `xref` locates it, unless it is in `seen`.
pub open spec fn spec_get_object(s: Seq<u8>, xref: Map<u32, XrefEntry>, id: ObjectId, seen: Seq<ObjectId>)
    -> Result<(PdfValue, Option<int>), Error>
    decreases unvisited(xref, seen), 0int,
    when xref.dom().finite() && unvisited(xref, seen) >= 0
{
    if seen.contains(id) {
        Err(Error::ReferenceCycle)
    } else if xref.contains_key(id.0) && entry_generation(xref[id.0]) == Some(id.1) {
        proof {
            lemma_visited(xref, seen, id);
        }
        match spec_read_object(s, s, xref, xref[id.0]->offset as int, Some(id), seen.push(id)) {
            Ok((_, v, pos)) => Ok((v, pos)),
            Err(e) => Err(e),
        }
    } else {
        Err(Error::MissingXrefEntry)
    }
}

/// Whether `o` is an object read as `v`, with `pos` the position where the
/// data of a stream without data starts.
pub open spec fn read_as(o: Object, v: PdfValue, pos: Option<int>) -> bool {
    &&& o@ == v
    &&& match o {
        Object::Stream(st) => st.start_position == match pos {
            Some(q) => Some(q as usize),
            None => None::<usize>,
        },
        _ => pos is None,
    }
}

pub proof fn lemma_unvisited(xref: Map<u32, XrefEntry>, seen: Seq<ObjectId>)
    requires
        xref.dom().finite(),
    ensures
        unvisited(xref, seen) >= 0,
{
    assert(visited(xref, seen).subset_of(xref.dom()));
    vstd::set_lib::lemma_len_subset(visited(xref, seen), xref.dom());
}

/// Reads a PDF file: its bytes, the document being built from them, and
/// the bytes of encrypted objects kept for decryption.
pub struct Reader<'a> {
    pub buffer: &'a [u8],
    pub document: Document,
    pub encryption_state: Option<EncryptionState>,
    pub raw_objects: BTreeMap<ObjectId, Vec<u8>>,
}

/// Maximum allowed embedding of literal strings.
pub const MAX_BRACKET: usize = 100;

fn blanks(s: &[u8], p: usize) -> (r: usize)
    requires
        p <= s@.len(),
    ensures
        r == blanks_end(s@, p as int),
        p <= r <= s@.len(),
{
    let mut q = p;
    while q < s.len() && (s[q] == 32 || s[q] == 9)
        invariant
            p <= q <= s@.len(),
            blanks_end(s@, q as int) == blanks_end(s@, p as int),
        decreases s@.len() - q,
    {
        q = q + 1;
    }
    q
}

/// Reads the head of an indirect object at `p`.
fn object_header(s: &[u8], p: usize) -> (r: Option<(ObjectId, usize)>)
    requires
        p <= s@.len(),
    ensures
        match spec_object_header(s@, p as int) {
            Some((id, q)) => r == Some((id, q as usize)) && 0 <= q <= s@.len(),
            None => r is None,
        },
{
    let len = s.len();
    assert(len == s@.len());
    let q0 = space(s, p);
    match unsigned_int(s, q0, 4294967295u64) {
        Some((n, e1)) => {
            proof {
                lemma_digits_end(s@, q0 as int);
            }
            let q1 = space(s, e1);
            match unsigned_int(s, q1, 65535u64) {
                Some((g, e2)) => {
                    proof {
                        lemma_digits_end(s@, q1 as int);
                    }
                    let q2 = space(s, e2);
                    let w = vec![111u8, 98, 106];
                    assert(w@ =~= obj_word());
                    assert(w@.len() == 3);
                    if tag(s, q2, w.as_slice()) {
                        assert(q2 + 3 <= s@.len());
                        let q3 = space(s, q2 + 3);
                        assert(n <= u32::MAX && g <= u16::MAX);
                        let id: ObjectId = (n as u32, g as u16);
                        assert(id == (n as nat as u32, g as nat as u16));
                        Some((id, q3))
                    } else {
                        None
                    }
                },
                None => None,
            }
        },
        None => None,
    }
}

/// Reads the head of a stream at `p`: its dictionary and where its data
/// starts.
fn stream_head(s: &[u8], p: usize) -> (r: Option<(Dictionary, usize)>)
    requires
        p <= s@.len(),
    ensures
        match spec_stream_head(s@, p as int) {
            Some((entries, d)) => r matches Some((dict, d2)) && d2 == d
                && Object::Dictionary(dict)@ == PdfValue::Dictionary(entries) && d <= s@.len(),
            None => r is None,
        },
{
    let len = s.len();
    assert(len == s@.len());
    match direct_objects(s, p) {
        Some((Object::Dictionary(dict), e)) => {
            let q = space(s, e);
            let w = vec![115u8, 116, 114, 101, 97, 109];
            assert(w@ =~= stream_word());
            assert(w@.len() == 6);
            if tag(s, q, w.as_slice()) {
                assert(q + 6 <= s@.len());
                let b = blanks(s, q + 6);
                match eol(s, b) {
                    Some(n) => {
                        assert(b + n <= s@.len());
                        Some((dict, b + n))
                    },
                    None => None,
                }
            } else {
                None
            }
        },
        _ => None,
    }
}

/// Whether `length` bytes of data at `d` end a stream.
fn data_ends(s: &[u8], d: usize, length: usize) -> (r: bool)
    requires
        d <= s@.len(),
    ensures
        r == stream_data_ends(s@, d as int, length as int),
{
    if length > s.len() - d {
        return false;
    }
    let e = d + length;
    let e2 = match eol(s, e) {
        Some(n) => e + n,
        None => e,
    };
    let w = vec![101u8, 110, 100, 115, 116, 114, 101, 97, 109];
    assert(w@ =~= endstream_word());
    if e2 > s.len() {
        return false;
    }
    tag(s, e2, w.as_slice())
}

fn seen_contains(seen: &Vec<ObjectId>, id: ObjectId) -> (r: bool)
    ensures
        r == seen@.contains(id),
{
    let mut i: usize = 0;
    while i < seen.len()
        invariant
            i <= seen@.len(),
            forall|j: int| 0 <= j < i ==> seen@[j] != id,
        decreases seen@.len() - i,
    {
        if seen[i].0 == id.0 && seen[i].1 == id.1 {
            assert(seen@[i as int] == id);
            return true;
        }
        i = i + 1;
    }
    false
}

fn seen_with(seen: &Vec<ObjectId>, id: ObjectId) -> (r: Vec<ObjectId>)
    ensures
        r@ == seen@.push(id),
{
    let mut out: Vec<ObjectId> = Vec::new();
    let mut i: usize = 0;
    while i < seen.len()
        invariant
            i <= seen@.len(),
            out@ == seen@.subrange(0, i as int),
        decreases seen@.len() - i,
    {
        out.push(seen[i]);
        i = i + 1;
        assert(out@ =~= seen@.subrange(0, i as int));
    }
    out.push(id);
    assert(out@ =~= seen@.push(id));
    out
}

impl<'a> Reader<'a> {
    /// The entries of the cross-reference table read so far.
    pub open spec fn table(&self) -> Map<u32, XrefEntry> {
        self.document.reference_table.entries@
    }

    /// Reads the object that starts at `p`.
    fn object_at(&self, s: &[u8], p: usize, seen: &Vec<ObjectId>) -> (r: Option<Object>)
        requires
            p <= s@.len(),
        ensures
            match spec_object_at(s@, self.buffer@, self.table(), p as int, seen@) {
                Some((v, pos)) => r matches Some(o) && read_as(o, v, pos),
                None => r is None,
            },
        decreases unvisited(self.table(), seen@), 1int,
    {
        proof {
            lemma_unvisited(self.table(), seen@);
        }
        let len = s.len();
        assert(len == s@.len());
        match stream_head(s, p) {
            Some((dict, d)) => {
                let ghost entries = match Object::Dictionary(dict)@ { PdfValue::Dictionary(e) => e, _ => Seq::empty() };
                proof {
                    crate::object::lemma_dictionary_value(dict);
                    crate::object::lemma_entries_get_values(crate::object::dict_pairs(dict), length_bytes());
                }
                assert(entries == pairs_values(dict_pairs(dict)));
                let ghost spec_length: Option<i64> = match entries_get(entries, length_bytes()) {
                    Some(PdfValue::Reference(n, g)) => match spec_get_object(self.buffer@, self.table(), (n, g), seen@) {
                        Ok((PdfValue::Integer(v), _)) => Some(v),
                        _ => None,
                    },
                    Some(PdfValue::Integer(v)) => Some(v),
                    _ => None,
                };
                let length: Option<i64> = match dict.get(length_key().as_slice()) {
                    Ok(Object::Reference(id)) => match self.get_object_in(*id, seen) {
                        Ok(Object::Integer(v)) => Some(v),
                        _ => None,
                    },
                    Ok(Object::Integer(v)) => Some(*v),
                    _ => None,
                };
                assert(length == spec_length);
                match length {
                    Some(l) => {
                        if l < 0 {
                            None
                        } else {
                            #[verifier::truncate]
                            let lu = l as usize;
                            if data_ends(s, d, lu) {
                                assert(d + lu <= s@.len());
                                let data = crate::parser::copy_range(s, d, d + lu);
                                let st = Stream::new(dict, data);
                                proof {
                                    crate::object::lemma_stream_value(st);
                                    crate::object::lemma_pairs_values_set(crate::object::dict_pairs(dict),
                                        crate::object::dict_pairs(st.dict), length_bytes(), Object::Integer(lu as i64));
                                    crate::object::lemma_dictionary_value(st.dict);
                                }
                                Some(Object::Stream(st))
                            } else {
                                Some(Object::Dictionary(dict))
                            }
                        }
                    },
                    None => {
                        let st = Stream::with_position(dict, d);
                        proof {
                            crate::object::lemma_stream_value(st);
                            assert(st.content@ =~= Seq::<u8>::empty());
                        }
                        Some(Object::Stream(st))
                    },
                }
            },
            None => match direct_objects(s, p) {
                Some((o, _)) => Some(o),
                None => None,
            },
        }
    }

    /// Reads the indirect object at `offset`.
    fn read_object_in(&self, s: &[u8], offset: usize, expected_id: Option<ObjectId>, seen: &Vec<ObjectId>)
        -> (r: Result<(ObjectId, Object), Error>)
        ensures
            match spec_read_object(s@, self.buffer@, self.table(), offset as int, expected_id, seen@) {
                Ok((id, v, pos)) => r matches Ok((id2, o)) && id2 == id && read_as(o, v, pos),
                Err(e) => r matches Err(e2) && e2 == e,
            },
        decreases unvisited(self.table(), seen@), 2int,
    {
        proof {
            lemma_unvisited(self.table(), seen@);
        }
        if offset > s.len() {
            return Err(Error::Offset(offset));
        }
        match object_header(s, offset) {
            None => Err(Error::OldParse { offset }),
            Some((id, p)) => {
                match expected_id {
                    Some(x) => {
                        if x.0 != id.0 || x.1 != id.1 {
                            return Err(Error::ObjectIdMismatch);
                        }
                    },
                    None => {},
                }
                match self.object_at(s, p, seen) {
                    Some(o) => Ok((id, o)),
                    None => Err(Error::OldParse { offset }),
                }
            },
        }
    }

    /// Reads object `id` where the table locates it, unless `seen` holds it.
    fn get_object_in(&self, id: ObjectId, seen: &Vec<ObjectId>) -> (r: Result<Object, Error>)
        ensures
            match spec_get_object(self.buffer@, self.table(), id, seen@) {
                Ok((v, pos)) => r matches Ok(o) && read_as(o, v, pos),
                Err(e) => r matches Err(e2) && e2 == e,
            },
        decreases unvisited(self.table(), seen@), 0int,
    {
        proof {
            lemma_unvisited(self.table(), seen@);
        }
        if seen_contains(seen, id) {
            return Err(Error::ReferenceCycle);
        }
        match self.document.reference_table.get(id.0) {
            Some(XrefEntry::Normal { offset, generation }) => {
                if *generation != id.1 {
                    return Err(Error::MissingXrefEntry);
                }
                let seen2 = seen_with(seen, id);
                proof {
                    lemma_visited(self.table(), seen@, id);
                }
                match self.read_object_in(self.buffer, *offset as usize, Some(id), &seen2) {
                    Ok((_, o)) => Ok(o),
                    Err(e) => Err(e),
                }
            },
            _ => Err(Error::MissingXrefEntry),
        }
    }

    /// Reads object `id` where the cross-reference table locates it, unless
    /// `already_seen` holds it, which then holds it.
    pub fn get_object(&self, id: ObjectId, already_seen: &mut Vec<ObjectId>) -> (r: Result<Object, Error>)
        ensures
            match spec_get_object(self.buffer@, self.table(), id, old(already_seen)@) {
                Ok((v, pos)) => r matches Ok(o) && read_as(o, v, pos),
                Err(e) => r matches Err(e2) && e2 == e,
            },
            final(already_seen)@ == if old(already_seen)@.contains(id) { old(already_seen)@ } else {
                old(already_seen)@.push(id)
            },
    {
        proof {
            lemma_unvisited(self.table(), already_seen@);
        }
        if seen_contains(already_seen, id) {
            return Err(Error::ReferenceCycle);
        }
        let ghost before = already_seen@;
        already_seen.push(id);
        match self.document.reference_table.get(id.0) {
            Some(XrefEntry::Normal { offset, generation }) => {
                if *generation != id.1 {
                    return Err(Error::MissingXrefEntry);
                }
                proof {
                    lemma_visited(self.table(), before, id);
                }
                match self.read_object_in(self.buffer, *offset as usize, Some(id), already_seen) {
                    Ok((_, o)) => Ok(o),
                    Err(e) => Err(e),
                }
            },
            _ => Err(Error::MissingXrefEntry),
        }
    }
}

/// The last position from `start` on where `pattern` stands in `s`.
pub open spec fn last_occurrence(s: Seq<u8>, pattern: Seq<u8>, start: int) -> Option<int>
    decreases s.len() - start,
{
    if pattern.len() == 0 || start < 0 || start + pattern.len() > s.len() {
        None
    } else {
        match last_occurrence(s, pattern, start + 1) {
            Some(i) => Some(i),
            None => if has_word(s, start, pattern) { Some(start) } else { None },
        }
    }
}

/// The first position where `pattern` stands in `s`.
pub open spec fn first_occurrence(s: Seq<u8>, pattern: Seq<u8>, start: int) -> Option<int>
    decreases s.len() + 1 - start,
{
    if start < 0 || start + pattern.len() > s.len() {
        None
    } else if has_word(s, start, pattern) {
        Some(start)
    } else {
        first_occurrence(s, pattern, start + 1)
    }
}

/// `%%EOF`.
pub open spec fn eof_marker() -> Seq<u8> {
    seq![37u8, 37, 69, 79, 70]
}

/// `startxref`.
pub open spec fn startxref_marker() -> Seq<u8> {
    seq![115u8, 116, 97, 114, 116, 120, 114, 101, 102]
}

/// Where the cross-reference data of the file `s` starts, as its end says:
/// the last `%%EOF` in its last 512 bytes, which must stand after byte 25,
/// and the last `startxref` from 25 bytes before it on, with its offset.
pub open spec fn spec_xref_start_of(s: Seq<u8>) -> Result<usize, Error> {
    let seek = s.len() - if s.len() < 512 { s.len() as int } else { 512int };
    match last_occurrence(s, eof_marker(), seek) {
        Some(eof) => if eof > 25 {
            match last_occurrence(s, startxref_marker(), eof - 25) {
                Some(x) => match spec_xref_start(s.subrange(x, s.len() as int)) {
                    Some(v) => Ok(v as usize),
                    None => Err(Error::Xref(XrefError::Start)),
                },
                None => Err(Error::Xref(XrefError::Start)),
            }
        } else {
            Err(Error::Xref(XrefError::Start))
        },
        None => Err(Error::Xref(XrefError::Start)),
    }
}

/// What the cross-reference data at `p` gives where it is a table and a
/// trailer: the table's entries, the size that the trailer's /Size gives and
/// the trailer's entries; an error where /Size is no integer. Nothing where
/// no table and trailer stand at `p`.
pub open spec fn spec_table_and_trailer(s: Seq<u8>, p: int)
    -> Option<Result<(Map<u32, XrefEntry>, u32, Seq<(Seq<u8>, PdfValue)>), Error>>
{
    match spec_xref_table(s, p) {
        Some((m, e)) => match spec_trailer(s, e) {
            Some((entries, _)) => Some(match entries_get(entries, size_bytes()) {
                Some(PdfValue::Integer(v)) => Ok((m, v as u32, entries)),
                _ => Err(Error::Trailer),
            }),
            None => None,
        },
        None => None,
    }
}

/// Whether `r` is what reading the cross-reference data at `p` gives: a
/// table and its trailer, or else a cross-reference stream, which is
/// decoded where its decoding parameters allow it.
pub open spec fn xref_and_trailer_result(s: Seq<u8>, table: Map<u32, XrefEntry>, p: int,
    r: Result<(Xref, Dictionary), Error>) -> bool
{
    match spec_table_and_trailer(s, p) {
        Some(Ok((m, size, entries))) => r matches Ok((x, t)) && x.entries@ == m && x.size == size
            && x.cross_reference_type == XrefType::CrossReferenceTable && Object::Dictionary(t)@ == PdfValue::Dictionary(entries),
        Some(Err(e)) => r == Err::<(Xref, Dictionary), Error>(e),
        None => match spec_read_object(s, s, table, p, None, Seq::empty()) {
            Ok((_, v, pos)) => if v is Stream {
                exists|st: Stream| #[trigger] read_as(Object::Stream(st), v, pos) && if stream_decodable(st.dict@) {
                    xref_stream_result(st, r)
                } else {
                    r == Err::<(Xref, Dictionary), Error>(Error::Xref(XrefError::Parse))
                }
            } else {
                r == Err::<(Xref, Dictionary), Error>(Error::Xref(XrefError::Parse))
            },
            Err(_) => r == Err::<(Xref, Dictionary), Error>(Error::Trailer),
        },
    }
}

/// The error that reading the cross-reference section at `p` ends in, where
/// it goes wrong before a cross-reference stream is decoded.
#[verifier::opaque]
pub open spec fn section_error(s: Seq<u8>, table: Map<u32, XrefEntry>, p: int) -> Option<Error> {
    match spec_table_and_trailer(s, p) {
        Some(Ok(_)) => None,
        Some(Err(e)) => Some(e),
        None => match spec_read_object(s, s, table, p, None, Seq::empty()) {
            Ok((_, v, _)) => if v is Stream { None } else { Some(Error::Xref(XrefError::Parse)) },
            Err(_) => Some(Error::Trailer),
        },
    }
}

/// The entries of the one section that following the /Prev offset `prev`
/// reads, where it is a cross-reference table whose trailer has no /Prev of
/// its own and `trailer` has no /XRefStm.
pub open spec fn lone_section(s: Seq<u8>, prev: Option<Object>, trailer: Seq<(Seq<u8>, Object)>) -> Option<Map<u32, XrefEntry>> {
    match prev {
        Some(Object::Integer(v)) => if 0 <= v <= s.len() && entries_get(trailer, xref_stm_bytes()) is None {
            match spec_table_and_trailer(s, v as int) {
                Some(Ok((m, _, entries))) => if entries_get(entries, prev_bytes()) is None { Some(m) } else { None },
                _ => None,
            }
        } else {
            None
        },
        _ => None,
    }
}

/// The value of an object that may be missing.
pub open spec fn value_of(o: Option<Object>) -> Option<PdfValue> {
    match o {
        Some(x) => Some(x@),
        None => None,
    }
}

/// The entries that following the /Prev offset `prev`, and the /Prev
/// offsets of the sections it reaches, merge into `acc`, the entries merged
/// first kept: where each section on the way is a cross-reference table and
/// each offset lies in the file. An offset met again, or no integer offset,
/// ends the walk. Nothing where the walk meets anything else or needs more
/// than `fuel` steps.
pub open spec fn table_chain(s: Seq<u8>, prev: Option<PdfValue>, seen: Seq<i64>, acc: Map<u32, XrefEntry>, fuel: nat)
    -> Option<Map<u32, XrefEntry>>
    decreases fuel,
{
    match prev {
        Some(PdfValue::Integer(v)) => if seen.contains(v) {
            Some(acc)
        } else if fuel == 0 || v < 0 || v > s.len() {
            None
        } else {
            match spec_table_and_trailer(s, v as int) {
                Some(Ok((m, _, entries))) => table_chain(s, entries_get(entries, prev_bytes()), seen.push(v),
                    m.union_prefer_right(acc), (fuel - 1) as nat),
                _ => None,
            }
        },
        _ => Some(acc),
    }
}

/// What following the first /Prev offset `prev` gives: an error where the
/// offset lies outside the file or reading the section there goes wrong
/// before a stream is decoded, success where there is no offset to follow.
pub open spec fn first_section_outcome(s: Seq<u8>, table: Map<u32, XrefEntry>, prev: Option<Object>, r: Result<(), Error>) -> bool {
    match prev {
        Some(Object::Integer(v)) => if v < 0 || v > s.len() {
            r == Err::<(), Error>(Error::Xref(XrefError::PrevStart))
        } else {
            section_error(s, table, v as int) matches Some(e) ==> r == Err::<(), Error>(e)
        },
        _ => r is Ok,
    }
}

/// The last position from `start` on where `pattern` stands in `buffer`.
pub fn search_substring(buffer: &[u8], pattern: &[u8], start_pos: usize) -> (r: Option<usize>)
    ensures
        match last_occurrence(buffer@, pattern@, start_pos as int) {
            Some(i) => r == Some(i as usize) && start_pos <= i && i + pattern@.len() <= buffer@.len(),
            None => r is None,
        },
{
    let len = buffer.len();
    assert(len == buffer@.len());
    let m = pattern.len();
    if m == 0 || start_pos > len || m > len - start_pos {
        return None;
    }
    let mut i = len - m;
    loop
        invariant
            start_pos <= i <= len - m,
            m == pattern@.len(),
            m > 0,
            len == buffer@.len(),
            forall|j: int| i < j && j + m <= len ==> !has_word(buffer@, j, pattern@),
        decreases i,
    {
        if crate::parser::tag(buffer, i, pattern) {
            proof {
                lemma_last_occurrence(buffer@, pattern@, start_pos as int, i as int);
            }
            return Some(i);
        }
        if i == start_pos {
            proof {
                lemma_last_occurrence_none(buffer@, pattern@, start_pos as int);
            }
            return None;
        }
        i = i - 1;
    }
}

pub proof fn lemma_last_occurrence(s: Seq<u8>, pattern: Seq<u8>, start: int, i: int)
    requires
        pattern.len() > 0,
        0 <= start <= i,
        i + pattern.len() <= s.len(),
        has_word(s, i, pattern),
        forall|j: int| i < j && j + pattern.len() <= s.len() ==> !has_word(s, j, pattern),
    ensures
        last_occurrence(s, pattern, start) == Some(i),
    decreases i - start,
{
    if start < i {
        lemma_last_occurrence(s, pattern, start + 1, i);
    } else {
        lemma_last_occurrence_none(s, pattern, start + 1);
    }
}

pub proof fn lemma_last_occurrence_none(s: Seq<u8>, pattern: Seq<u8>, start: int)
    requires
        pattern.len() > 0,
        0 <= start,
        forall|j: int| start <= j && j + pattern.len() <= s.len() ==> !has_word(s, j, pattern),
    ensures
        last_occurrence(s, pattern, start) is None,
    decreases s.len() - start,
{
    if start + pattern.len() <= s.len() {
        lemma_last_occurrence_none(s, pattern, start + 1);
    }
}


/// Whether `b` is white-space as ASCII has it: space, tab, line feed, form
/// feed or carriage return.
pub open spec fn is_ascii_blank(b: u8) -> bool {
    b == 32 || b == 9 || b == 10 || b == 12 || b == 13
}

/// The first position from `p` on that holds no ASCII white-space.
pub open spec fn ascii_blanks_end(s: Seq<u8>, p: int) -> int
    decreases s.len() - p,
{
    if 0 <= p < s.len() && is_ascii_blank(s[p]) { ascii_blanks_end(s, p + 1) } else { p }
}

/// `endobj`.
pub open spec fn endobj_word() -> Seq<u8> {
    seq![101u8, 110, 100, 111, 98, 106]
}

/// Where a search for `endobj` from `p` on stops: after the first `endobj`,
/// or, where none follows, at the last position from which six bytes remain.
pub open spec fn endobj_search(s: Seq<u8>, p: int) -> int
    decreases s.len() - p,
{
    if p + 6 <= s.len() {
        if has_word(s, p, endobj_word()) { p + 6 } else { endobj_search(s, p + 1) }
    } else {
        p
    }
}

/// The bytes of the indirect object at `offset`, unparsed: its number and
/// generation, read as digits with ASCII white-space around them, `obj`,
/// and everything from `offset` to the end of the first `endobj` after it.
pub open spec fn spec_raw_object(s: Seq<u8>, offset: int) -> Result<(ObjectId, Seq<u8>), Error> {
    if offset > s.len() {
        Err(Error::Offset(offset as usize))
    } else {
        let t = s.subrange(offset, s.len() as int);
        match spec_unsigned(t, ascii_blanks_end(t, 0), u32::MAX as nat) {
            None => Err(Error::Parse(ParseError::InvalidXref)),
            Some((n, e1)) => match spec_unsigned(t, ascii_blanks_end(t, e1), u16::MAX as nat) {
                None => Err(Error::Parse(ParseError::InvalidXref)),
                Some((g, e2)) => {
                    let p = ascii_blanks_end(t, e2);
                    if has_word(t, p, obj_word()) {
                        Ok(((n as u32, g as u16), t.subrange(0, endobj_search(t, p + 3))))
                    } else {
                        Err(Error::Parse(ParseError::InvalidXref))
                    }
                },
            },
        }
    }
}

fn ascii_blanks(s: &[u8], p: usize) -> (r: usize)
    requires
        p <= s@.len(),
    ensures
        r == ascii_blanks_end(s@, p as int),
        p <= r <= s@.len(),
{
    let mut i = p;
    while i < s.len() && (s[i] == 32 || s[i] == 9 || s[i] == 10 || s[i] == 12 || s[i] == 13)
        invariant
            p <= i <= s@.len(),
            ascii_blanks_end(s@, i as int) == ascii_blanks_end(s@, p as int),
        decreases s@.len() - i,
    {
        i = i + 1;
    }
    i
}

fn endobj_end(s: &[u8], p: usize) -> (r: usize)
    requires
        p <= s@.len(),
    ensures
        r == endobj_search(s@, p as int),
        r <= s@.len(),
{
    let len = s.len();
    let w = vec![101u8, 110, 100, 111, 98, 106];
    assert(w@ =~= endobj_word());
    let mut i = p;
    while len >= 6 && i <= len - 6
        invariant
            p <= i <= len,
            len == s@.len(),
            w@ == endobj_word(),
            endobj_search(s@, i as int) == endobj_search(s@, p as int),
        decreases len - i,
    {
        if tag(s, i, w.as_slice()) {
            return i + 6;
        }
        i = i + 1;
    }
    i
}

/// The first position where `%PDF-` stands in `buffer`, or 0.
fn header_offset(buffer: &[u8]) -> (r: usize)
    ensures
        match first_occurrence(buffer@, crate::file_structure::header_word(), 0) {
            Some(i) => r == i,
            None => r == 0,
        },
        r <= buffer@.len(),
{
    let len = buffer.len();
    assert(len == buffer@.len());
    let w = vec![37u8, 80, 68, 70, 45];
    assert(w@ =~= crate::file_structure::header_word());
    let mut i: usize = 0;
    while len >= 5 && i <= len - 5
        invariant
            i <= len,
            len == buffer@.len(),
            w@ == crate::file_structure::header_word(),
            first_occurrence(buffer@, w@, 0) == first_occurrence(buffer@, w@, i as int),
        decreases len - i,
    {
        if crate::parser::tag(buffer, i, w.as_slice()) {
            return i;
        }
        i = i + 1;
    }
    0
}

impl<'a> Reader<'a> {
    /// Where the cross-reference data starts, as the end of the file says.
    pub fn get_xref_start(buffer: &[u8]) -> (r: Result<usize, Error>)
        ensures
            r == spec_xref_start_of(buffer@),
    {
        let len = buffer.len();
        assert(len == buffer@.len());
        let seek_pos = len - if len < 512 { len } else { 512 };
        let eof = vec![37u8, 37, 69, 79, 70];
        assert(eof@ =~= eof_marker());
        let eof_pos = match search_substring(buffer, eof.as_slice(), seek_pos) {
            Some(e) => e,
            None => {
                return Err(Error::Xref(XrefError::Start));
            },
        };
        if eof_pos <= 25 {
            return Err(Error::Xref(XrefError::Start));
        }
        let sx = vec![115u8, 116, 97, 114, 116, 120, 114, 101, 102];
        assert(sx@ =~= startxref_marker());
        let xref_pos = match search_substring(buffer, sx.as_slice(), eof_pos - 25) {
            Some(x) => x,
            None => {
                return Err(Error::Xref(XrefError::Start));
            },
        };
        let tail = crate::parser::copy_range(buffer, xref_pos, len);
        match xref_start(tail.as_slice()) {
            Some(v) => {
                #[verifier::truncate]
                let start = v as usize;
                Ok(start)
            },
            None => Err(Error::Xref(XrefError::Start)),
        }
    }

    /// Reads the cross-reference data at `p`: a table and its trailer, or a
    /// cross-reference stream.
    pub fn xref_and_trailer(&self, p: usize) -> (r: Result<(Xref, Dictionary), Error>)
        requires
            p <= self.buffer@.len(),
        ensures
            xref_and_trailer_result(self.buffer@, self.table(), p as int, r),
    {
        let s = self.buffer;
        match xref(s, p) {
            Some((mut table, e)) => {
                match trailer(s, e) {
                    Some((dict, _)) => {
                        proof {
                            crate::object::lemma_dictionary_value(dict);
                            crate::object::lemma_entries_get_values(dict_pairs(dict), size_bytes());
                        }
                        match dict.get(size_key().as_slice()) {
                            Ok(Object::Integer(v)) => {
                                #[verifier::truncate]
                                let size = *v as u32;
                                table.size = size;
                                return Ok((table, dict));
                            },
                            _ => {
                                return Err(Error::Trailer);
                            },
                        }
                    },
                    None => {},
                }
            },
            None => {},
        }
        let empty: Vec<ObjectId> = Vec::new();
        match self.read_object_in(self.buffer, p, None, &empty) {
            Ok((_, Object::Stream(st))) => {
                if st.is_decodable() {
                    decode_xref_stream(st)
                } else {
                    Err(Error::Xref(XrefError::Parse))
                }
            },
            Ok(_) => Err(Error::Xref(XrefError::Parse)),
            Err(_) => Err(Error::Trailer),
        }
    }
}

impl<'a> Reader<'a> {
    /// Cuts the indirect object at `offset` out of the file, unparsed, with
    /// its number and generation.
    fn extract_raw_object(&self, offset: usize) -> (r: Result<(ObjectId, Vec<u8>), Error>)
        ensures
            match spec_raw_object(self.buffer@, offset as int) {
                Ok((id, b)) => r matches Ok((id2, v)) && id2 == id && v@ == b,
                Err(e) => r matches Err(e2) && e2 == e,
            },
    {
        let len = self.buffer.len();
        if offset > len {
            return Err(Error::Offset(offset));
        }
        let t = vstd::slice::slice_subrange(self.buffer, offset, len);
        let p1 = ascii_blanks(t, 0);
        proof {
            lemma_digits_end(t@, p1 as int);
        }
        let (n, e1) = match unsigned_int(t, p1, 0xffff_ffff) {
            Some(x) => x,
            None => {
                return Err(Error::Parse(ParseError::InvalidXref));
            },
        };
        let p2 = ascii_blanks(t, e1);
        proof {
            lemma_digits_end(t@, p2 as int);
        }
        let (g, e2) = match unsigned_int(t, p2, 0xffff) {
            Some(x) => x,
            None => {
                return Err(Error::Parse(ParseError::InvalidXref));
            },
        };
        let p3 = ascii_blanks(t, e2);
        let obj = vec![111u8, 98, 106];
        assert(obj@ =~= obj_word());
        if !tag(t, p3, obj.as_slice()) {
            return Err(Error::Parse(ParseError::InvalidXref));
        }
        let end = endobj_end(t, p3 + 3);
        let raw = crate::parser::copy_range(t, 0, end);
        Ok(((n as u32, g as u16), raw))
    }

    /// Reads the indirect object that `raw_bytes` holds, which starts there.
    fn parse_raw_object(&self, raw_bytes: &[u8]) -> (r: Result<(ObjectId, Object), Error>)
        ensures
            match spec_read_object(raw_bytes@, self.buffer@, self.table(), 0, None, Seq::empty()) {
                Ok((id, v, pos)) => r matches Ok((id2, o)) && id2 == id && read_as(o, v, pos),
                Err(e) => r matches Err(e2) && e2 == e,
            },
    {
        let seen: Vec<ObjectId> = Vec::new();
        assert(seen@ =~= Seq::<ObjectId>::empty());
        self.read_object_in(raw_bytes, 0, None, &seen)
    }
}

/// The object and its bytes that the indirect object at entry `k` of the
/// table gives, cut out unparsed, where the entry is in use and the cut
/// succeeds.
pub open spec fn entry_raw_object(s: Seq<u8>, xref: Map<u32, XrefEntry>, k: u32) -> Option<(ObjectId, Seq<u8>)> {
    if xref.contains_key(k) && xref[k] is Normal {
        match spec_raw_object(s, xref[k]->offset as int) {
            Ok(x) => Some(x),
            Err(_) => None,
        }
    } else {
        None
    }
}

/// The object that the bytes `raw` of an indirect object give.
pub open spec fn raw_parse(raw: Seq<u8>, file: Seq<u8>, xref: Map<u32, XrefEntry>) -> Result<(ObjectId, PdfValue, Option<int>), Error> {
    spec_read_object(raw, file, xref, 0, None, Seq::empty())
}

/// Whether the object numbered `id` is the same in `before` and `after`:
/// there in both with one value, or in neither.
pub open spec fn unchanged_at(before: Map<ObjectId, Object>, after: Map<ObjectId, Object>, id: ObjectId) -> bool {
    &&& before.contains_key(id) == after.contains_key(id)
    &&& before.contains_key(id) ==> before[id] == after[id]
}

/// Whether `id` is an object that the entries `cs` of objects in object
/// streams name: one of the objects, or one of the streams.
pub open spec fn touched_by(cs: Seq<(u32, u32, u16)>, id: ObjectId) -> bool {
    exists|j: int| 0 <= j < cs.len() && (id == (cs[j].0, 0u16) || id == (cs[j].1, 0u16))
}

/// Whether no object of the entries `cs` is itself one of their streams,
/// and no object has two entries.
pub open spec fn entries_apart(cs: Seq<(u32, u32, u16)>) -> bool {
    &&& forall|i: int, j: int| 0 <= i < cs.len() && 0 <= j < cs.len() ==> #[trigger] cs[i].0 != #[trigger] cs[j].1
    &&& forall|i: int, j: int| 0 <= i < cs.len() && 0 <= j < cs.len() && i != j ==> #[trigger] cs[i].0 != #[trigger] cs[j].0
}

/// Whether object `n` of object stream `c` is in `objects` as the stream
/// that `objects` holds gives it, where it is a stream that reads and holds
/// that object.
pub open spec fn member_taken(objects: Map<ObjectId, Object>, c: u32, n: u32) -> bool {
    objects.contains_key((c, 0u16)) && objects[(c, 0u16)] is Stream ==> forall|os: ObjectStream|
        #[trigger] object_stream_read(objects[(c, 0u16)]->Stream_0.dict@, objects[(c, 0u16)]->Stream_0.content@, Ok(os))
        && os.objects@.contains_key((n, 0u16))
        ==> objects.contains_key((n, 0u16)) && objects[(n, 0u16)]@ == os.objects@[(n, 0u16)]@
}

/// Whether `after` differs from `before` at most in stream `c` and in the
/// objects `members`.
pub open spec fn step_frame(before: Map<ObjectId, Object>, after: Map<ObjectId, Object>, c: u32, members: Seq<u32>) -> bool {
    forall|id: ObjectId| #![trigger unchanged_at(before, after, id)]
        !(id == (c, 0u16) || (id.1 == 0 && members.contains(id.0))) ==> unchanged_at(before, after, id)
}

/// Whether `groups` lists the object of each entry of `cs` under its stream.
pub open spec fn groups_cover(cs: Seq<(u32, u32, u16)>, groups: Map<u32, Vec<u32>>) -> bool {
    forall|j: int| 0 <= j < cs.len() ==> #[trigger] groups.contains_key(cs[j].1) && groups[cs[j].1]@.contains(cs[j].0)
}

/// Whether `groups` lists, for each stream, objects whose entries in `cs`
/// place them there, at least one.
pub open spec fn groups_from(cs: Seq<(u32, u32, u16)>, groups: Map<u32, Vec<u32>>) -> bool {
    &&& forall|c: u32, x: u32| groups.contains_key(c) && #[trigger] groups[c]@.contains(x) ==> exists|j: int|
        0 <= j < cs.len() && cs[j].1 == c && cs[j].0 == x
    &&& forall|c: u32| #[trigger] groups.contains_key(c) ==> groups[c]@.len() > 0
}

/// Reading an object stream has one outcome: it succeeds or fails alike,
/// and where it succeeds, with objects of the same values.
pub proof fn lemma_object_stream_read_unique(dict: Seq<(Seq<u8>, Object)>, content: Seq<u8>,
    r1: Result<ObjectStream, Error>, r2: Result<ObjectStream, Error>)
    requires
        object_stream_read(dict, content, r1),
        object_stream_read(dict, content, r2),
    ensures
        r1 is Ok <==> r2 is Ok,
        r1 matches Ok(a) ==> (r2 matches Ok(b) && a.objects@.dom() == b.objects@.dom()
            && forall|id: ObjectId| #[trigger] a.objects@.contains_key(id) ==> a.objects@[id]@ == b.objects@[id]@),
{
}

/// A stream that does not read as an object stream gives no object.
proof fn lemma_stream_unread(cs: Seq<(u32, u32, u16)>, c: u32, objects: Map<ObjectId, Object>, st: Stream)
    requires
        objects.contains_key((c, 0u16)),
        objects[(c, 0u16)] == Object::Stream(st),
        exists|e: Error| object_stream_read(st.dict@, st.content@, Err(e)),
    ensures
        forall|j: int| 0 <= j < cs.len() && cs[j].1 == c ==> #[trigger] member_taken(objects, cs[j].1, cs[j].0),
{
    let e = choose|e: Error| object_stream_read(st.dict@, st.content@, Err(e));
    assert forall|j: int| 0 <= j < cs.len() && cs[j].1 == c implies #[trigger] member_taken(objects, cs[j].1, cs[j].0) by {
        assert forall|os: ObjectStream| #[trigger] object_stream_read(st.dict@, st.content@, Ok(os)) implies false by {
            lemma_object_stream_read_unique(st.dict@, st.content@, Err(e), Ok(os));
        }
    }
}

/// After the objects of stream `c` were copied from what it reads as, each
/// object that an entry places in `c` is there as the stream gives it.
proof fn lemma_members_read(cs: Seq<(u32, u32, u16)>, gs: Map<u32, Vec<u32>>, c: u32,
    objs2: Map<ObjectId, Object>, objs3: Map<ObjectId, Object>, after: Map<ObjectId, Object>, st: Stream, os: ObjectStream)
    requires
        gs.contains_key(c),
        groups_from(cs, gs),
        groups_cover(cs, gs),
        objs3 == objs2.insert((c, 0u16), Object::Stream(st)),
        object_stream_read(st.dict@, st.content@, Ok(os)),
        forall|id: ObjectId| #![trigger unchanged_at(objs3, after, id)]
            !(id.1 == 0 && gs[c]@.contains(id.0)) ==> unchanged_at(objs3, after, id),
        forall|i: int| 0 <= i < gs[c]@.len() && os.objects@.contains_key((#[trigger] gs[c]@[i], 0u16))
            ==> after.contains_key((gs[c]@[i], 0u16)) && after[(gs[c]@[i], 0u16)]@ == os.objects@[(gs[c]@[i], 0u16)]@,
    ensures
        entries_apart(cs) ==> forall|j: int| 0 <= j < cs.len() && cs[j].1 == c ==> #[trigger] member_taken(after, cs[j].1, cs[j].0),
        step_frame(objs2, after, c, gs[c]@),
{
    if entries_apart(cs) {
        assert(unchanged_at(objs3, after, (c, 0u16))) by {
            if gs[c]@.contains(c) {
                let j = choose|j: int| 0 <= j < cs.len() && cs[j].1 == c && cs[j].0 == c;
                assert(cs[j].0 != cs[j].1);
            }
        }
        assert forall|j: int| 0 <= j < cs.len() && cs[j].1 == c implies #[trigger] member_taken(after, cs[j].1, cs[j].0) by {
            let n = cs[j].0;
            assert(gs[c]@.contains(n));
            let i = choose|i: int| 0 <= i < gs[c]@.len() && gs[c]@[i] == n;
            assert forall|os2: ObjectStream| #[trigger] object_stream_read(st.dict@, st.content@, Ok(os2))
                && os2.objects@.contains_key((n, 0u16))
                implies after.contains_key((n, 0u16)) && after[(n, 0u16)]@ == os2.objects@[(n, 0u16)]@ by {
                lemma_object_stream_read_unique(st.dict@, st.content@, Ok(os), Ok(os2));
                assert(os.objects@.contains_key((gs[c]@[i], 0u16)));
            }
        }
    }
    assert forall|id: ObjectId| !(id == (c, 0u16) || (id.1 == 0 && gs[c]@.contains(id.0)))
        implies #[trigger] unchanged_at(objs2, after, id) by {
        assert(unchanged_at(objs3, after, id));
    }
}

/// Taking the objects of stream `c` keeps what earlier streams gave and the
/// streams still to come.
proof fn lemma_container_step(cs: Seq<(u32, u32, u16)>, gs: Map<u32, Vec<u32>>, done: Set<u32>, c: u32,
    objs1: Map<ObjectId, Object>, before: Map<ObjectId, Object>, after: Map<ObjectId, Object>)
    requires
        gs.contains_key(c),
        !done.contains(c),
        groups_from(cs, gs),
        step_frame(before, after, c, gs[c]@),
        entries_apart(cs) ==> forall|j: int| 0 <= j < cs.len() && cs[j].1 == c ==> #[trigger] member_taken(after, cs[j].1, cs[j].0),
        entries_apart(cs) ==> forall|j: int| 0 <= j < cs.len() && done.contains(cs[j].1)
            ==> #[trigger] member_taken(before, cs[j].1, cs[j].0),
        entries_apart(cs) ==> forall|c2: u32| #[trigger] gs.contains_key(c2) && !done.contains(c2)
            ==> unchanged_at(objs1, before, (c2, 0u16)),
    ensures
        entries_apart(cs) ==> forall|j: int| 0 <= j < cs.len() && done.insert(c).contains(cs[j].1)
            ==> #[trigger] member_taken(after, cs[j].1, cs[j].0),
        entries_apart(cs) ==> forall|c2: u32| #[trigger] gs.contains_key(c2) && !done.insert(c).contains(c2)
            ==> unchanged_at(objs1, after, (c2, 0u16)),
{
    if entries_apart(cs) {
        assert(gs[c]@.len() > 0);
        let x0 = gs[c]@[0];
        assert(gs[c]@.contains(x0));
        let j0 = choose|j: int| 0 <= j < cs.len() && cs[j].1 == c && cs[j].0 == x0;
        assert(cs[j0].1 == c);
        assert forall|j: int| 0 <= j < cs.len() && done.insert(c).contains(cs[j].1)
            implies #[trigger] member_taken(after, cs[j].1, cs[j].0) by {
            if cs[j].1 != c {
                let c2 = cs[j].1;
                let n = cs[j].0;
                assert(unchanged_at(before, after, (c2, 0u16))) by {
                    if gs[c]@.contains(c2) {
                        let j2 = choose|j2: int| 0 <= j2 < cs.len() && cs[j2].1 == c && cs[j2].0 == c2;
                        assert(cs[j2].0 != cs[j].1);
                    }
                }
                assert(unchanged_at(before, after, (n, 0u16))) by {
                    assert(cs[j].0 != cs[j0].1);
                    if gs[c]@.contains(n) {
                        let j2 = choose|j2: int| 0 <= j2 < cs.len() && cs[j2].1 == c && cs[j2].0 == n;
                        assert(j2 != j);
                        assert(cs[j2].0 != cs[j].0);
                    }
                }
                assert(member_taken(before, c2, n));
            }
        }
        assert forall|c2: u32| #[trigger] gs.contains_key(c2) && !done.insert(c).contains(c2)
            implies unchanged_at(objs1, after, (c2, 0u16)) by {
            assert(gs[c2]@.len() > 0);
            let x2 = gs[c2]@[0];
            assert(gs[c2]@.contains(x2));
            let j3 = choose|j: int| 0 <= j < cs.len() && cs[j].1 == c2 && cs[j].0 == x2;
            assert(cs[j3].1 == c2);
            assert(!done.contains(c2));
            assert(unchanged_at(objs1, before, (c2, 0u16)));
            if gs[c]@.contains(c2) {
                let j2 = choose|j2: int| 0 <= j2 < cs.len() && cs[j2].1 == c && cs[j2].0 == c2;
                assert(cs[j2].0 != cs[j3].1);
            }
            assert(unchanged_at(before, after, (c2, 0u16)));
        }
    }
}

/// Whether object `id` is one that an entry of the table places in an
/// object stream, or is such a stream.
pub open spec fn compressed_touch(xref: Map<u32, XrefEntry>, id: ObjectId) -> bool {
    exists|k: u32| #[trigger] xref.contains_key(k) && (xref[k] matches XrefEntry::Compressed { container, .. }
        && (id == (k, 0u16) || id == (container, 0u16)))
}

/// Whether `cs` lists entries of the table that place objects in object
/// streams: each with its number, its stream and its index there.
pub open spec fn compressed_listed(xref: Map<u32, XrefEntry>, cs: Seq<(u32, u32, u16)>) -> bool {
    forall|j: int| 0 <= j < cs.len() ==> #[trigger] xref.contains_key(cs[j].0)
        && xref[cs[j].0] == (XrefEntry::Compressed { container: cs[j].1, index: cs[j].2 })
}

/// Whether each object that an entry of the table cuts out of the file
/// reads with the identifier that it was cut out under.
pub open spec fn raw_entries_parse_own(s: Seq<u8>, xref: Map<u32, XrefEntry>) -> bool {
    forall|k: u32| #[trigger] entry_raw_object(s, xref, k) matches Some((id, b))
        ==> (raw_parse(b, s, xref) matches Ok((pid, _, _)) ==> pid == id)
}

/// Whether `doc` holds each object that the table locates decrypted with
/// `state`: the value read from its bytes passed through the crypt filters
/// for its identifier; the encryption dictionary and the objects that
/// entries place in object streams, with those streams, aside.
#[verifier::opaque]
pub open spec fn objects_decrypted(doc: Document, s: Seq<u8>, state: EncryptionState) -> bool {
    forall|k: u32| #[trigger] entry_raw_object(s, doc.reference_table.entries@, k) matches Some((id, b))
        ==> (entries_get(doc.trailer@, encrypt_bytes()) != Some(Object::Reference(id))
        && !compressed_touch(doc.reference_table.entries@, id)
        ==> (raw_parse(b, s, doc.reference_table.entries@) matches Ok((_, v, _))
        ==> doc.objects@.contains_key(id) && doc.objects@[id]@ == crate::encryption::crypted(state, id, v)))
}

/// Whether the empty password opens `doc`: it authenticates, and the state
/// of the security handler decodes with it.
pub open spec fn opens_without_password(doc: Document) -> bool {
    doc.authenticate_password_spec(Seq::empty()) && crate::encryption::decode_succeeds(doc, Seq::empty())
}

/// The object that the trailer entries `trailer` name as the encryption
/// dictionary.
pub open spec fn encrypt_ref_of(trailer: Seq<(Seq<u8>, Object)>) -> Option<ObjectId> {
    match entries_get(trailer, encrypt_bytes()) {
        Some(Object::Reference(id)) => Some(id),
        _ => None,
    }
}

/// Whether `after` is `before` with the encryption dictionary that
/// `trailer` names read from `bytes`, its bytes cut out of the file, where
/// there are any and they read; `before` itself otherwise.
pub open spec fn dict_loaded_from(before: Map<ObjectId, Object>, after: Map<ObjectId, Object>,
    trailer: Seq<(Seq<u8>, Object)>, bytes: Option<Seq<u8>>, s: Seq<u8>, xref: Map<u32, XrefEntry>) -> bool {
    match (encrypt_ref_of(trailer), bytes) {
        (Some(eref), Some(b)) => match raw_parse(b, s, xref) {
            Ok((_, v, pos)) => after == before.insert(eref, after[eref]) && read_as(after[eref], v, pos),
            Err(_) => after == before,
        },
        _ => after == before,
    }
}

/// Whether `after` is `before` with the encryption dictionary read from
/// the bytes that `raws` holds for it.
pub open spec fn dict_loaded(before: Map<ObjectId, Object>, after: Map<ObjectId, Object>,
    trailer: Seq<(Seq<u8>, Object)>, raws: Map<ObjectId, Vec<u8>>, s: Seq<u8>, xref: Map<u32, XrefEntry>) -> bool {
    dict_loaded_from(before, after, trailer, match encrypt_ref_of(trailer) {
        Some(eref) => if raws.contains_key(eref) { Some(raws[eref]@) } else { None },
        None => None,
    }, s, xref)
}

/// The bytes that the entry numbered like `id` cuts out of the file `s`,
/// where they carry `id`.
pub open spec fn own_entry_bytes(s: Seq<u8>, xref: Map<u32, XrefEntry>, id: ObjectId) -> Option<Seq<u8>> {
    match entry_raw_object(s, xref, id.0) {
        Some((i, b)) => if i == id { Some(b) } else { None },
        None => None,
    }
}

/// Whether `after` is `before` with the encryption dictionary that
/// `trailer` names read from the file `s` at the entry of its number.
pub open spec fn dict_read_from_file(before: Map<ObjectId, Object>, after: Map<ObjectId, Object>,
    trailer: Seq<(Seq<u8>, Object)>, s: Seq<u8>, xref: Map<u32, XrefEntry>) -> bool {
    dict_loaded_from(before, after, trailer, match encrypt_ref_of(trailer) {
        Some(eref) => own_entry_bytes(s, xref, eref),
        None => None,
    }, s, xref)
}

/// Whether each object that an entry of the table cuts out of the file
/// carries the number of that entry.
pub open spec fn raw_entries_own_numbers(s: Seq<u8>, xref: Map<u32, XrefEntry>) -> bool {
    forall|k: u32| #[trigger] entry_raw_object(s, xref, k) matches Some((id, _)) ==> id.0 == k
}

/// Whether each object cut out of the file reads with the identifier that
/// it was cut out under.
pub open spec fn raws_own_ids(raws: Map<ObjectId, Vec<u8>>, s: Seq<u8>, xref: Map<u32, XrefEntry>) -> bool {
    forall|id: ObjectId| #[trigger] raws.contains_key(id) ==> (raw_parse(raws[id]@, s, xref) matches Ok((pid, _, _))
        ==> pid == id)
}

/// Where every object cut out of the file carries the number of its entry,
/// the bytes kept for the encryption dictionary are those of the entry of
/// its number.
proof fn lemma_own_entry_bytes(raws: Map<ObjectId, Vec<u8>>, s: Seq<u8>, xref: Map<u32, XrefEntry>,
    trailer: Seq<(Seq<u8>, Object)>)
    requires
        raw_entries_own_numbers(s, xref),
        forall|k: u32| #[trigger] entry_raw_object(s, xref, k) matches Some((id, _)) ==> raws.contains_key(id),
        forall|id: ObjectId| #[trigger] raws.contains_key(id)
            ==> exists|k: u32| entry_raw_object(s, xref, k) == Some((id, raws[id]@)),
        forall|k: u32| #[trigger] entry_raw_object(s, xref, k) matches Some((id, b)) ==> raws[id]@ == b,
    ensures
        encrypt_ref_of(trailer) matches Some(eref) ==> own_entry_bytes(s, xref, eref)
            == (if raws.contains_key(eref) { Some(raws[eref]@) } else { None }),
{
    if let Some(eref) = encrypt_ref_of(trailer) {
        if raws.contains_key(eref) {
            let k = choose|k: u32| entry_raw_object(s, xref, k) == Some((eref, raws[eref]@));
            assert(k == eref.0);
        } else {
            if entry_raw_object(s, xref, eref.0) is Some {
                let (i, b) = entry_raw_object(s, xref, eref.0)->0;
                assert(raws.contains_key(i));
            }
        }
    }
}

impl<'a> Reader<'a> {
    /// Whether `self` and `other` read the same file with the same table,
    /// trailer, version, highest object number and cross-reference start.
    pub open spec fn same_frame(&self, other: &Reader<'a>) -> bool {
        &&& self.buffer == other.buffer
        &&& self.document.reference_table == other.document.reference_table
        &&& self.document.trailer == other.document.trailer
        &&& self.document.version == other.document.version
        &&& self.document.max_id == other.document.max_id
        &&& self.document.xref_start == other.document.xref_start
    }

    /// Cuts each indirect object that the table locates out of the file,
    /// unparsed, and lists the entries of objects in object streams: their
    /// number, the number of their stream and their index there.
    #[verifier::spinoff_prover]
    fn collect_raw_objects(&mut self) -> (compressed: Vec<(u32, u32, u16)>)
        ensures
            final(self).buffer == old(self).buffer,
            final(self).document == old(self).document,
            forall|k: u32| #[trigger] entry_raw_object(old(self).buffer@, old(self).table(), k) matches Some((id, _))
                ==> final(self).raw_objects@.contains_key(id),
            forall|id: ObjectId| #[trigger] final(self).raw_objects@.contains_key(id) ==> old(self).raw_objects@.contains_key(id)
                || exists|k: u32| entry_raw_object(old(self).buffer@, old(self).table(), k) == Some((id, final(self).raw_objects@[id]@)),
            compressed_listed(old(self).table(), compressed@),
            raw_entries_own_numbers(old(self).buffer@, old(self).table()) ==> forall|k: u32|
                #[trigger] entry_raw_object(old(self).buffer@, old(self).table(), k) matches Some((id, b))
                ==> final(self).raw_objects@[id]@ == b,
    {
        let ghost s = self.buffer@;
        let ghost table = self.table();
        let ghost raw0 = self.raw_objects@;
        let mut raws: BTreeMap<ObjectId, Vec<u8>> = BTreeMap::new();
        std::mem::swap(&mut raws, &mut self.raw_objects);
        let mut compressed: Vec<(u32, u32, u16)> = Vec::new();
        for kv in it: self.document.reference_table.entries.iter()
            invariant
                s == self.buffer@,
                table == self.table(),
                forall|j: int| 0 <= j < it.seq().len() ==> #[trigger] table.contains_key(*it.seq()[j].0)
                    && table[*it.seq()[j].0] == *it.seq()[j].1,
                forall|j: int| 0 <= j < it.index() ==> (#[trigger] entry_raw_object(s, table, *it.seq()[j].0)
                    matches Some((id, _)) ==> raws@.contains_key(id)),
                forall|k: u32| #[trigger] entry_raw_object(s, table, k) matches Some((id, _)) ==> (raws@.contains_key(id)
                    || exists|j: int| it.index() <= j < it.seq().len() && *it.seq()[j].0 == k),
                forall|id: ObjectId| #[trigger] raws@.contains_key(id) ==> raw0.contains_key(id)
                    || exists|k: u32| entry_raw_object(s, table, k) == Some((id, raws@[id]@)),
                compressed_listed(table, compressed@),
                it.seq().no_duplicates(),
                forall|k: u32| #[trigger] table.contains_key(k) ==> exists|j: int| 0 <= j < it.seq().len() && *it.seq()[j].0 == k,
                raw_entries_own_numbers(s, table) ==> forall|j: int| 0 <= j < it.index() ==> (#[trigger] entry_raw_object(s, table, *it.seq()[j].0)
                    matches Some((id, b)) ==> raws@[id]@ == b),
        {
            let (k, entry) = kv;
            let ghost j = it.index();
            let ghost raws0 = raws@;
            let ghost cs0 = compressed@;
            assert(*it.seq()[j].0 == *k && *it.seq()[j].1 == *entry);
            match entry {
                XrefEntry::Normal { offset, .. } => {
                    match self.extract_raw_object(*offset as usize) {
                        Ok((id, raw)) => {
                            assert(entry_raw_object(s, table, *k) == Some((id, raw@)));
                            raws.insert(id, raw);
                            proof {
                                if raw_entries_own_numbers(s, table) {
                                    assert forall|j2: int| 0 <= j2 < j + 1 implies (#[trigger] entry_raw_object(s, table, *it.seq()[j2].0)
                                        matches Some((id2, b2)) ==> raws@[id2]@ == b2) by {
                                        if j2 < j {
                                            if *it.seq()[j2].0 == *k {
                                                assert(table.contains_key(*it.seq()[j2].0) && table[*it.seq()[j2].0] == *it.seq()[j2].1);
                                                assert(it.seq()[j2] == it.seq()[j]);
                                            }
                                            if let Some((id2, b2)) = entry_raw_object(s, table, *it.seq()[j2].0) {
                                                assert(id2.0 == *it.seq()[j2].0);
                                                assert(id.0 == *k);
                                            }
                                        }
                                    }
                                }
                            }
                        },
                        Err(_) => {},
                    }
                },
                XrefEntry::Compressed { container, index } => {
                    let ghost c0 = compressed@;
                    compressed.push((*k, *container, *index));
                    proof {
                        assert(table.contains_key(*it.seq()[j].0) && table[*it.seq()[j].0] == *it.seq()[j].1);
                        assert(compressed@[c0.len() as int] == (*k, *container, *index));
                        assert forall|i: int| 0 <= i < compressed@.len() implies #[trigger] table.contains_key(compressed@[i].0)
                            && table[compressed@[i].0] == (XrefEntry::Compressed { container: compressed@[i].1, index: compressed@[i].2 }) by {
                            if i < c0.len() {
                                assert(compressed@[i] == c0[i]);
                            }
                        }
                        assert(compressed_listed(table, compressed@));
                    }
                },
                _ => {},
            }
        }
        proof {
            if raw_entries_own_numbers(s, table) {
                assert forall|k: u32| (#[trigger] entry_raw_object(s, table, k) matches Some((id, b)) ==> raws@[id]@ == b) by {
                    if entry_raw_object(s, table, k) is Some {
                        assert(table.contains_key(k));
                    }
                }
            }
        }
        self.raw_objects = raws;
        compressed
    }

    /// Reads each object cut out of the file but the encryption dictionary
    /// `encrypt_ref`, decrypts it with `state` and adds it to the document.
    fn decrypt_raw_objects(&mut self, state: &EncryptionState, encrypt_ref: Option<ObjectId>)
        ensures
            final(self).same_frame(old(self)),
            final(self).raw_objects == old(self).raw_objects,
            final(self).document.encryption_state == old(self).document.encryption_state,
            forall|id: ObjectId| #[trigger] old(self).document.objects@.contains_key(id) ==> final(self).document.objects@.contains_key(id),
            forall|id: ObjectId| #[trigger] old(self).raw_objects@.contains_key(id) && encrypt_ref != Some(id)
                ==> (raw_parse(old(self).raw_objects@[id]@, old(self).buffer@, old(self).table()) matches Ok((pid, _, _))
                ==> final(self).document.objects@.contains_key(pid)),
            raws_own_ids(old(self).raw_objects@, old(self).buffer@, old(self).table()) ==> forall|id: ObjectId|
                #[trigger] old(self).raw_objects@.contains_key(id) && encrypt_ref != Some(id)
                ==> (raw_parse(old(self).raw_objects@[id]@, old(self).buffer@, old(self).table()) matches Ok((_, v, _))
                ==> final(self).document.objects@[id]@ == crate::encryption::crypted(*state, id, v)),
    {
        let ghost s = self.buffer@;
        let ghost table = self.table();
        let ghost objs0 = self.document.objects@;
        let mut raws: BTreeMap<ObjectId, Vec<u8>> = BTreeMap::new();
        std::mem::swap(&mut raws, &mut self.raw_objects);
        let ghost before = *self;
        for kv in it: raws.iter()
            invariant
                s == self.buffer@,
                table == self.table(),
                self.same_frame(&before),
                self.raw_objects == before.raw_objects,
                self.document.encryption_state == before.document.encryption_state,
                forall|j: int| 0 <= j < it.seq().len() ==> #[trigger] raws@.contains_key(*it.seq()[j].0)
                    && raws@[*it.seq()[j].0] == *it.seq()[j].1,
                forall|id: ObjectId| #[trigger] raws@.contains_key(id) ==> exists|j: int| 0 <= j < it.seq().len() && *it.seq()[j].0 == id,
                forall|id: ObjectId| #[trigger] objs0.contains_key(id) ==> self.document.objects@.contains_key(id),
                forall|id: ObjectId| #[trigger] raws@.contains_key(id) && encrypt_ref != Some(id)
                    && (exists|j: int| 0 <= j < it.index() && *it.seq()[j].0 == id)
                    ==> (raw_parse(raws@[id]@, s, table) matches Ok((pid, _, _))
                    ==> self.document.objects@.contains_key(pid)),
                it.seq().no_duplicates(),
                raws_own_ids(raws@, s, table) ==> forall|id: ObjectId| #[trigger] raws@.contains_key(id) && encrypt_ref != Some(id)
                    && (exists|j: int| 0 <= j < it.index() && *it.seq()[j].0 == id)
                    ==> (raw_parse(raws@[id]@, s, table) matches Ok((_, v, _))
                    ==> self.document.objects@[id]@ == crate::encryption::crypted(*state, id, v)),
        {
            let (obj_id, raw) = kv;
            let ghost j = it.index();
            let ghost objs_before = self.document.objects@;
            assert(*it.seq()[j].0 == *obj_id && *it.seq()[j].1 == *raw);
            let skip = match encrypt_ref {
                Some(e) => e.0 == obj_id.0 && e.1 == obj_id.1,
                None => false,
            };
            if !skip {
                match self.parse_raw_object(raw.as_slice()) {
                    Ok((id, obj)) => {
                        let mut obj = obj;
                        let _ = crate::encryption::decrypt_object(state, *obj_id, &mut obj);
                        self.document.objects.insert(id, obj);
                    },
                    Err(_) => {},
                }
            }
            proof {
                if raws_own_ids(raws@, s, table) {
                    assert(raws@.contains_key(*obj_id) && raws@[*obj_id] == *raw);
                    assert forall|id2: ObjectId| #[trigger] raws@.contains_key(id2) && encrypt_ref != Some(id2)
                        && (exists|j2: int| 0 <= j2 < j + 1 && *it.seq()[j2].0 == id2)
                        implies (raw_parse(raws@[id2]@, s, table) matches Ok((_, v, _))
                        ==> self.document.objects@[id2]@ == crate::encryption::crypted(*state, id2, v)) by {
                        if id2 != *obj_id {
                            let j2 = choose|j2: int| 0 <= j2 < j + 1 && *it.seq()[j2].0 == id2;
                            assert(j2 < j);
                            if raw_parse(raws@[id2]@, s, table) is Ok {
                                assert(self.document.objects@[id2] == objs_before[id2]);
                            }
                        }
                    }
                }
            }
        }
        self.raw_objects = raws;
    }

    /// Adds to the document the objects that the entries `compressed` place
    /// in object streams, from the streams the document holds.
    #[verifier::spinoff_prover]
    fn take_compressed_objects(&mut self, compressed: &Vec<(u32, u32, u16)>)
        ensures
            final(self).same_frame(old(self)),
            final(self).raw_objects == old(self).raw_objects,
            final(self).document.encryption_state == old(self).document.encryption_state,
            forall|id: ObjectId| #[trigger] old(self).document.objects@.contains_key(id) ==> final(self).document.objects@.contains_key(id),
            forall|id: ObjectId| !touched_by(compressed@, id) ==> unchanged_at(old(self).document.objects@, final(self).document.objects@, id),
            forall|id: ObjectId| #[trigger] final(self).document.objects@.contains_key(id) && !old(self).document.objects@.contains_key(id)
                ==> exists|j: int| 0 <= j < compressed@.len() && id == (compressed@[j].0, 0u16),
            entries_apart(compressed@) ==> forall|j: int| 0 <= j < compressed@.len()
                ==> #[trigger] member_taken(final(self).document.objects@, compressed@[j].1, compressed@[j].0),
    {
        let ghost cs = compressed@;
        let mut groups: BTreeMap<u32, Vec<u32>> = BTreeMap::new();
        for c in it: compressed.iter()
            invariant
                it.seq().len() == cs.len(),
                forall|j: int| 0 <= j < cs.len() ==> *it.seq()[j] == #[trigger] cs[j],
                forall|j: int| 0 <= j < it.index() ==> #[trigger] groups@.contains_key(cs[j].1) && groups@[cs[j].1]@.contains(cs[j].0),
                groups_from(cs, groups@),
        {
            let (num, container, _) = *c;
            let ghost k = it.index();
            let ghost g0 = groups@;
            let mut members = match groups.remove(&container) {
                Some(v) => v,
                None => Vec::new(),
            };
            let ghost m0 = members@;
            members.push(num);
            groups.insert(container, members);
            proof {
                assert(cs[k] == *c);
                assert forall|j: int| 0 <= j < k + 1 implies #[trigger] groups@.contains_key(cs[j].1) && groups@[cs[j].1]@.contains(cs[j].0) by {
                    if j < k && cs[j].1 == container {
                        let i = choose|i: int| 0 <= i < g0[container]@.len() && g0[container]@[i] == cs[j].0;
                        assert(groups@[container]@[i] == cs[j].0);
                    }
                    if j == k {
                        assert(groups@[container]@[m0.len() as int] == num);
                    }
                }
                assert forall|c2: u32, x: u32| groups@.contains_key(c2) && #[trigger] groups@[c2]@.contains(x) implies exists|j: int|
                    0 <= j < cs.len() && cs[j].1 == c2 && cs[j].0 == x by {
                    if c2 == container && x == num {
                        assert(cs[k].1 == c2 && cs[k].0 == x);
                    } else {
                        let i = choose|i: int| 0 <= i < groups@[c2]@.len() && groups@[c2]@[i] == x;
                        if c2 == container {
                            assert(i < m0.len());
                            assert(m0[i] == x);
                            assert(g0.contains_key(c2) && g0[c2]@ == m0);
                        }
                        assert(g0.contains_key(c2) && g0[c2]@.contains(x));
                    }
                }
                assert forall|c2: u32| #[trigger] groups@.contains_key(c2) implies groups@[c2]@.len() > 0 by {
                    if c2 != container {
                        assert(g0.contains_key(c2));
                    }
                }
            }
        }
        assert(groups_from(cs, groups@));
        assert(groups_cover(cs, groups@));
        let ghost objs1 = self.document.objects@;
        let ghost before = *self;
        let ghost gs = groups@;
        let ghost mut done: Set<u32> = Set::empty();
        for kv in gi: groups.iter()
            invariant
                self.same_frame(&before),
                self.raw_objects == before.raw_objects,
                self.document.encryption_state == before.document.encryption_state,
                gs == groups@,
                forall|j: int| 0 <= j < gi.seq().len() ==> #[trigger] gs.contains_key(*gi.seq()[j].0) && gs[*gi.seq()[j].0] == *gi.seq()[j].1,
                gi.seq().no_duplicates(),
                forall|c: u32| #[trigger] gs.contains_key(c) ==> done.contains(c)
                    || exists|i: int| gi.index() <= i < gi.seq().len() && *gi.seq()[i].0 == c,
                groups_cover(cs, gs),
                forall|c: u32| #[trigger] done.contains(c) ==> exists|i: int| 0 <= i < gi.index() && *gi.seq()[i].0 == c,
                forall|i: int| 0 <= i < gi.index() ==> #[trigger] done.contains(*gi.seq()[i].0),
                groups_from(cs, gs),
                forall|id: ObjectId| #[trigger] objs1.contains_key(id) ==> self.document.objects@.contains_key(id),
                forall|id: ObjectId| !touched_by(cs, id) ==> unchanged_at(objs1, self.document.objects@, id),
                forall|id: ObjectId| #[trigger] self.document.objects@.contains_key(id) && !objs1.contains_key(id)
                    ==> exists|j: int| 0 <= j < cs.len() && id == (cs[j].0, 0u16),
                entries_apart(cs) ==> forall|j: int| 0 <= j < cs.len() && done.contains(cs[j].1)
                    ==> #[trigger] member_taken(self.document.objects@, cs[j].1, cs[j].0),
                entries_apart(cs) ==> forall|c: u32| #[trigger] gs.contains_key(c) && !done.contains(c)
                    ==> unchanged_at(objs1, self.document.objects@, (c, 0u16)),
        {
            let (container_id, members) = kv;
            let ghost gk = gi.index();
            let ghost objs2 = self.document.objects@;
            assert(*gi.seq()[gk].0 == *container_id && *gi.seq()[gk].1 == *members);
            assert(!done.contains(*container_id)) by {
                if done.contains(*container_id) {
                    let i = choose|i: int| 0 <= i < gi.index() && *gi.seq()[i].0 == *container_id;
                    assert(gs.contains_key(*gi.seq()[i].0) && gs[*gi.seq()[i].0] == *gi.seq()[i].1);
                    assert(gi.seq()[i] == gi.seq()[gk]);
                }
            }
            let cid: ObjectId = (*container_id, 0u16);
            match self.document.objects.remove(&cid) {
                Some(Object::Stream(st)) => {
                    let mut st = st;
                    match ObjectStream::new(&mut st) {
                        Ok(os) => {
                            let ghost st1 = st;
                            self.document.objects.insert(cid, Object::Stream(st));
                            let ghost objs3 = self.document.objects@;
                            assert(objs3 =~= objs2.insert(cid, Object::Stream(st1)));
                            for n in mi: members.iter()
                                invariant
                                    self.same_frame(&before),
                                    self.raw_objects == before.raw_objects,
                                    self.document.encryption_state == before.document.encryption_state,
                                    mi.seq().len() == members@.len(),
                                    forall|i: int| 0 <= i < members@.len() ==> *mi.seq()[i] == #[trigger] members@[i],
                                    groups_cover(cs, gs),
                                    forall|id: ObjectId| #[trigger] objs3.contains_key(id) ==> self.document.objects@.contains_key(id),
                                    forall|id: ObjectId| !(exists|i: int| 0 <= i < mi.index() && id == (members@[i], 0u16))
                                        ==> unchanged_at(objs3, self.document.objects@, id),
                                    forall|i: int| 0 <= i < mi.index() && os.objects@.contains_key((#[trigger] members@[i], 0u16))
                                        ==> self.document.objects@.contains_key((members@[i], 0u16))
                                        && self.document.objects@[(members@[i], 0u16)]@ == os.objects@[(members@[i], 0u16)]@,
                            {
                                let oid: ObjectId = (*n, 0u16);
                                let ghost mk = mi.index();
                                let ghost o_before = self.document.objects@;
                                assert(members@[mk] == *n);
                                match os.objects.get(&oid) {
                                    Some(o) => {
                                        self.document.objects.insert(oid, clone_object(o));
                                    },
                                    None => {},
                                }
                                proof {
                                    assert forall|id: ObjectId| !(exists|i: int| 0 <= i < mk + 1 && id == (members@[i], 0u16))
                                        implies unchanged_at(objs3, self.document.objects@, id) by {
                                        assert(id != oid);
                                        assert(!(exists|i: int| 0 <= i < mk && id == (members@[i], 0u16))) by {
                                            if exists|i: int| 0 <= i < mk && id == (members@[i], 0u16) {
                                                let i = choose|i: int| 0 <= i < mk && id == (members@[i], 0u16);
                                                assert(0 <= i < mk + 1 && id == (members@[i], 0u16));
                                            }
                                        }
                                        assert(unchanged_at(objs3, o_before, id));
                                    }
                                }
                            }
                            proof {
                                assert forall|id: ObjectId| !(id.1 == 0 && members@.contains(id.0))
                                    implies #[trigger] unchanged_at(objs3, self.document.objects@, id) by {
                                    if exists|i: int| 0 <= i < members@.len() && id == (members@[i], 0u16) {
                                        let i = choose|i: int| 0 <= i < members@.len() && id == (members@[i], 0u16);
                                        assert(members@.contains(id.0));
                                    }
                                }
                                lemma_members_read(cs, gs, *container_id, objs2, objs3, self.document.objects@, st1, os);
                            }
                        },
                        Err(_) => {
                            let ghost st1 = st;
                            self.document.objects.insert(cid, Object::Stream(st));
                            proof {
                                lemma_stream_unread(cs, *container_id, self.document.objects@, st1);
                                assert(self.document.objects@ =~= objs2.insert(cid, Object::Stream(st1)));
                                assert forall|id: ObjectId| !(id == cid || (id.1 == 0 && gs[*container_id]@.contains(id.0)))
                                    implies #[trigger] unchanged_at(objs2, self.document.objects@, id) by {}
                            }
                        },
                    }
                },
                Some(o) => {
                    self.document.objects.insert(cid, o);
                    assert(self.document.objects@ =~= objs2);
                },
                None => {},
            }
            assert(step_frame(objs2, self.document.objects@, *container_id, gs[*container_id]@));
            assert(self.document.objects@.contains_key(cid) ==> objs2.contains_key(cid));
            proof {
                assert(gs[*container_id]@.len() > 0);
                let x0 = gs[*container_id]@[0];
                assert(gs[*container_id]@.contains(x0));
                let j0 = choose|j: int| 0 <= j < cs.len() && cs[j].1 == *container_id && cs[j].0 == x0;
                assert forall|id: ObjectId| !touched_by(cs, id) implies unchanged_at(objs1, self.document.objects@, id) by {
                    assert(unchanged_at(objs1, objs2, id));
                    if id == cid {
                        assert(id == (cs[j0].1, 0u16));
                    } else if id.1 == 0 && gs[*container_id]@.contains(id.0) {
                        let j = choose|j: int| 0 <= j < cs.len() && cs[j].1 == *container_id && cs[j].0 == id.0;
                        assert(id == (cs[j].0, 0u16));
                    }
                    assert(unchanged_at(objs2, self.document.objects@, id));
                }
                assert forall|id: ObjectId| #[trigger] self.document.objects@.contains_key(id) && !objs1.contains_key(id)
                    implies exists|j: int| 0 <= j < cs.len() && id == (cs[j].0, 0u16) by {
                    if !objs2.contains_key(id) {
                        assert(!unchanged_at(objs2, self.document.objects@, id));
                        assert(id.1 == 0 && gs[*container_id]@.contains(id.0));
                        let j = choose|j: int| 0 <= j < cs.len() && cs[j].1 == *container_id && cs[j].0 == id.0;
                        assert(id == (cs[j].0, 0u16));
                    }
                }
                lemma_container_step(cs, gs, done, *container_id, objs1, objs2, self.document.objects@);
                done = done.insert(*container_id);
            }
        }
        proof {
            if entries_apart(cs) {
                assert forall|j: int| 0 <= j < cs.len() implies #[trigger] member_taken(self.document.objects@, cs[j].1, cs[j].0) by {
                    assert(gs.contains_key(cs[j].1));
                    assert(done.contains(cs[j].1));
                }
            }
        }
    }

    /// Loads an encrypted document: cuts each indirect object out of the
    /// file unparsed, reads the encryption dictionary, and, where the empty
    /// password opens the document, reads and decrypts every other object and
    /// then takes the objects that the table places in object streams.
    fn load_encrypted_document(&mut self) -> (r: Result<(), Error>)
        ensures
            r is Ok,
            final(self).same_frame(old(self)),
            forall|k: u32| #[trigger] entry_raw_object(old(self).buffer@, old(self).table(), k) matches Some((id, _))
                ==> final(self).raw_objects@.contains_key(id),
            forall|id: ObjectId| #[trigger] final(self).raw_objects@.contains_key(id) ==> old(self).raw_objects@.contains_key(id)
                || exists|k: u32| entry_raw_object(old(self).buffer@, old(self).table(), k) == Some((id, final(self).raw_objects@[id]@)),
            forall|id: ObjectId| #[trigger] old(self).document.objects@.contains_key(id) ==> final(self).document.objects@.contains_key(id),
            old(self).document.encryption_state is None && final(self).document.encryption_state is Some ==> forall|id: ObjectId|
                #[trigger] final(self).raw_objects@.contains_key(id)
                && entries_get(old(self).document.trailer@, encrypt_bytes()) != Some(Object::Reference(id))
                ==> (raw_parse(final(self).raw_objects@[id]@, old(self).buffer@, old(self).table()) matches Ok((pid, _, _))
                ==> final(self).document.objects@.contains_key(pid)),
            old(self).document.encryption_state is None && final(self).document.encryption_state is Some
                && raws_own_ids(final(self).raw_objects@, old(self).buffer@, old(self).table()) ==> forall|id: ObjectId|
                #[trigger] final(self).raw_objects@.contains_key(id)
                && entries_get(old(self).document.trailer@, encrypt_bytes()) != Some(Object::Reference(id))
                && !compressed_touch(old(self).table(), id)
                ==> (raw_parse(final(self).raw_objects@[id]@, old(self).buffer@, old(self).table()) matches Ok((_, v, _))
                ==> final(self).document.objects@[id]@ == crate::encryption::crypted(
                    final(self).document.encryption_state->0, id, v)),
            old(self).document.encryption_state is None && final(self).document.encryption_state is Some
                && old(self).raw_objects@ == Map::<ObjectId, Vec<u8>>::empty()
                && raw_entries_own_numbers(old(self).buffer@, old(self).table())
                && raw_entries_parse_own(old(self).buffer@, old(self).table())
                ==> objects_decrypted(final(self).document, old(self).buffer@, final(self).document.encryption_state->0),
            old(self).document.encryption_state is None ==> exists|mid: Document| #[trigger] dict_loaded(
                old(self).document.objects@, mid.objects@, old(self).document.trailer@, final(self).raw_objects@,
                old(self).buffer@, old(self).table()) && mid.trailer == old(self).document.trailer
                && (final(self).document.encryption_state is Some <==> opens_without_password(mid)),
            old(self).document.encryption_state is None && old(self).raw_objects@ == Map::<ObjectId, Vec<u8>>::empty()
                && raw_entries_own_numbers(old(self).buffer@, old(self).table()) ==> exists|mid: Document|
                #[trigger] dict_read_from_file(old(self).document.objects@, mid.objects@, old(self).document.trailer@,
                old(self).buffer@, old(self).table()) && mid.trailer == old(self).document.trailer
                && (final(self).document.encryption_state is Some <==> opens_without_password(mid)),
    {
        let compressed = self.collect_raw_objects();
        let ghost raws = self.raw_objects@;
        proof {
            crate::object::lemma_entries_get_values(dict_pairs(self.document.trailer), encrypt_bytes());
        }
        let encrypt_ref: Option<ObjectId> = match self.document.trailer.get(encrypt_key().as_slice()) {
            Ok(o) => match o.as_reference() {
                Ok(id) => Some(id),
                Err(_) => None,
            },
            Err(_) => None,
        };
        match encrypt_ref {
            Some(eref) => self.load_encryption_dictionary(eref),
            None => {},
        }
        let ghost mid = self.document;
        assert(encrypt_ref == encrypt_ref_of(old(self).document.trailer@));
        assert(dict_loaded(old(self).document.objects@, mid.objects@, old(self).document.trailer@, raws,
            old(self).buffer@, old(self).table()));
        proof {
            if old(self).raw_objects@ == Map::<ObjectId, Vec<u8>>::empty()
                && raw_entries_own_numbers(old(self).buffer@, old(self).table()) {
                lemma_own_entry_bytes(raws, old(self).buffer@, old(self).table(), old(self).document.trailer@);
                assert(dict_read_from_file(old(self).document.objects@, mid.objects@, old(self).document.trailer@,
                    old(self).buffer@, old(self).table()));
            }
        }
        let opened = self.open_without_password();
        assert(opened is Some <==> opens_without_password(mid));
        match opened {
            Some(state) => {
                self.decrypt_raw_objects(&state, encrypt_ref);
                let ghost decrypted = self.document.objects@;
                self.take_compressed_objects(&compressed);
                proof {
                    assert forall|id: ObjectId| !compressed_touch(self.table(), id) implies !touched_by(compressed@, id) by {
                        if touched_by(compressed@, id) {
                            let j = choose|j: int| 0 <= j < compressed@.len()
                                && (id == (compressed@[j].0, 0u16) || id == (compressed@[j].1, 0u16));
                            assert(self.table().contains_key(compressed@[j].0));
                        }
                    }
                }
                self.document.encryption_state = Some(state);
                proof {
                    assert forall|id: ObjectId| #[trigger] self.raw_objects@.contains_key(id)
                        && entries_get(old(self).document.trailer@, encrypt_bytes()) != Some(Object::Reference(id))
                        && !compressed_touch(old(self).table(), id)
                        && raws_own_ids(self.raw_objects@, old(self).buffer@, old(self).table())
                        implies (raw_parse(self.raw_objects@[id]@, old(self).buffer@, old(self).table()) matches Ok((_, v, _))
                        ==> self.document.objects@[id]@ == crate::encryption::crypted(state, id, v)) by {
                        assert(!touched_by(compressed@, id));
                        assert(unchanged_at(decrypted, self.document.objects@, id));
                    }
                    if old(self).raw_objects@ == Map::<ObjectId, Vec<u8>>::empty()
                        && raw_entries_own_numbers(old(self).buffer@, old(self).table())
                        && raw_entries_parse_own(old(self).buffer@, old(self).table()) {
                        assert(raws_own_ids(self.raw_objects@, old(self).buffer@, old(self).table())) by {
                            assert forall|id: ObjectId| #[trigger] self.raw_objects@.contains_key(id) implies
                                (raw_parse(self.raw_objects@[id]@, old(self).buffer@, old(self).table()) matches Ok((pid, _, _))
                                ==> pid == id) by {
                                let k = choose|k: u32| entry_raw_object(old(self).buffer@, old(self).table(), k)
                                    == Some((id, self.raw_objects@[id]@));
                            }
                        }
                        reveal(objects_decrypted);
                        assert forall|k: u32| (#[trigger] entry_raw_object(self.buffer@, self.document.reference_table.entries@, k)
                            matches Some((id, b))
                            ==> (entries_get(self.document.trailer@, encrypt_bytes()) != Some(Object::Reference(id))
                            && !compressed_touch(self.document.reference_table.entries@, id)
                            ==> (raw_parse(b, self.buffer@, self.document.reference_table.entries@) matches Ok((_, v, _))
                            ==> self.document.objects@.contains_key(id)
                            && self.document.objects@[id]@ == crate::encryption::crypted(state, id, v)))) by {
                            if entry_raw_object(self.buffer@, self.document.reference_table.entries@, k) is Some {
                                let (id, b) = entry_raw_object(self.buffer@, self.document.reference_table.entries@, k)->0;
                                assert(self.raw_objects@.contains_key(id));
                                assert(self.raw_objects@[id]@ == b);
                            }
                        }
                    }
                }
            },
            None => {},
        }
        assert(self.raw_objects@ == raws);
        assert(dict_loaded(old(self).document.objects@, mid.objects@, old(self).document.trailer@, self.raw_objects@,
            old(self).buffer@, old(self).table()));
        assert(old(self).document.encryption_state is None ==> (self.document.encryption_state is Some
            <==> opens_without_password(mid)));
        Ok(())
    }

    /// Reads the encryption dictionary `eref` from its bytes cut out of the
    /// file, which are never encrypted, into the document.
    fn load_encryption_dictionary(&mut self, eref: ObjectId)
        ensures
            final(self).same_frame(old(self)),
            final(self).raw_objects == old(self).raw_objects,
            final(self).document.encryption_state == old(self).document.encryption_state,
            forall|id: ObjectId| #[trigger] old(self).document.objects@.contains_key(id) ==> final(self).document.objects@.contains_key(id),
            old(self).raw_objects@.contains_key(eref) && (raw_parse(old(self).raw_objects@[eref]@, old(self).buffer@, old(self).table())
                matches Ok((_, v, pos))) ==> {
                &&& final(self).document.objects@.contains_key(eref)
                &&& final(self).document.objects@ == old(self).document.objects@.insert(eref, final(self).document.objects@[eref])
                &&& (raw_parse(old(self).raw_objects@[eref]@, old(self).buffer@, old(self).table()) matches Ok((_, v, pos))
                    && read_as(final(self).document.objects@[eref], v, pos))
            },
            !old(self).raw_objects@.contains_key(eref) || raw_parse(old(self).raw_objects@[eref]@, old(self).buffer@, old(self).table()) is Err
                ==> final(self).document.objects@ == old(self).document.objects@,
    {
        match self.raw_objects.get(&eref) {
            Some(raw) => match self.parse_raw_object(raw.as_slice()) {
                Ok((_, obj)) => {
                    self.document.objects.insert(eref, obj);
                },
                Err(_) => {},
            },
            None => {},
        }
    }

    /// The state of the security handler where the empty password opens the
    /// document.
    fn open_without_password(&self) -> (r: Option<EncryptionState>)
        ensures
            r is Some <==> self.document.authenticate_password_spec(Seq::empty())
                && crate::encryption::decode_succeeds(self.document, Seq::empty()),
            r matches Some(state) ==> (encrypt_dict(self.document) matches Some(d)
                && crate::encryption::algorithms::dict_algorithm(d@) matches Some(a)
                && a.file_key_r4(self.document.trailer@, Some(d), Seq::empty())
                    == Ok::<Seq<u8>, crate::encryption::DecryptionError>(state.file_encryption_key@)
                && crate::encryption::state_from(state, self.document, d, state.file_encryption_key@)),
    {
        let no_password: Vec<u8> = Vec::new();
        assert(no_password@ =~= Seq::<u8>::empty());
        if self.document.authenticate_password(no_password.as_slice()).is_ok() {
            match EncryptionState::decode(&self.document, no_password.as_slice()) {
                Ok(state) => Some(state),
                Err(_) => None,
            }
        } else {
            None
        }
    }
}

/// The length that the /Length of stream `id` gives, references followed.
pub open spec fn stream_length(objects: Map<ObjectId, Object>, id: ObjectId) -> Option<i64> {
    match object_of(objects, id) {
        Ok(Object::Stream(st)) => match entries_get(st.dict@, length_bytes()) {
            Some(l) => match deref_from(objects, l, None, 0) {
                Ok((_, Object::Integer(v))) => Some(v),
                _ => None,
            },
            None => None,
        },
        _ => None,
    }
}

/// The object that the chain of references from object `id` ends at: the
/// last object that it names, or `id` itself.
pub open spec fn chain_end(objects: Map<ObjectId, Object>, id: ObjectId) -> ObjectId {
    match deref_from(objects, objects[id], None, 0) {
        Ok((Some(t), _)) => t,
        _ => id,
    }
}

/// Where the data of stream `id` lies in the file: the stream that the chain
/// from `id` ends at, where its data starts and the length that its /Length
/// gives.
pub open spec fn stream_data_span(objects: Map<ObjectId, Object>, id: ObjectId) -> Option<(ObjectId, int, int)> {
    match stream_length(objects, id) {
        Some(len) => match objects[chain_end(objects, id)] {
            Object::Stream(st) => match st.start_position {
                Some(p) => Some((chain_end(objects, id), p as int, len as int)),
                None => None,
            },
            _ => None,
        },
        None => None,
    }
}

/// Whether `after` is `before` with the data of stream `t` set to `data`
/// and its /Length to the length of `data`.
pub open spec fn stream_data_set(before: Map<ObjectId, Object>, after: Map<ObjectId, Object>, t: ObjectId, data: Seq<u8>) -> bool {
    &&& after.contains_key(t)
    &&& after == before.insert(t, after[t])
    &&& before.contains_key(t)
    &&& (before[t] matches Object::Stream(s1) && after[t] matches Object::Stream(s2)
        && s2.content@ == data
        && s2.dict@ == entries_set(s1.dict@, length_bytes(), Object::Integer(data.len() as i64))
        && s2.allows_compression == s1.allows_compression
        && s2.start_position == s1.start_position)
}

/// Following references from an object that `id` names gives an object
/// that the last name on the way names, and that object.
pub proof fn lemma_deref_names(objects: Map<ObjectId, Object>, o: Object, id: Option<ObjectId>, n: int)
    requires
        id matches Some(i) ==> objects.contains_key(i) && objects[i] == o,
    ensures
        deref_from(objects, o, id, n) matches Ok((Some(t), res)) ==> objects.contains_key(t) && objects[t] == res,
        deref_from(objects, o, id, n) matches Ok((None, res)) ==> res == o,
        id is Some ==> !(deref_from(objects, o, id, n) matches Ok((None, _))),
    decreases crate::document::DEREF_LIMIT - n,
{
    match o {
        Object::Reference(r) => if objects.contains_key(r) && !(n + 1 > crate::document::DEREF_LIMIT || n < 0) {
            lemma_deref_names(objects, objects[r], Some(r), n + 1);
        },
        _ => {},
    }
}

/// Whether a value is an object stream: a stream whose /Type is `ObjStm`.
pub open spec fn is_object_stream(v: PdfValue) -> bool {
    v matches PdfValue::Stream(entries, _) && entries_get(entries, type_bytes()) == Some(PdfValue::Name(obj_stm_bytes()))
}

/// The identifier of the object that entry `k` of the table locates, where
/// it can be read and is no object stream.
pub open spec fn plain_entry_object(s: Seq<u8>, xref: Map<u32, XrefEntry>, k: u32) -> Option<ObjectId> {
    if xref.contains_key(k) && xref[k] is Normal {
        match spec_read_object(s, s, xref, xref[k]->offset as int, None, Seq::empty()) {
            Ok((id, v, _)) => if is_object_stream(v) { None } else { Some(id) },
            Err(_) => None,
        }
    } else {
        None
    }
}

/// Whether `st` is the object stream `v`, read at `pos`, with its filters
/// decoded where its decoding parameters allow it.
pub open spec fn container_decoded(v: PdfValue, pos: Option<int>, st: Stream) -> bool {
    exists|st0: Stream| #[trigger] read_as(Object::Stream(st0), v, pos) && if stream_decodable(st0.dict@) {
        exists|done: Result<(), Error>| decompressed_as(st0, st, done, None)
    } else {
        st == st0
    }
}

/// Whether `os` is what the object stream that entry `c` of the table
/// locates gives, as `objects` keeps that stream.
pub open spec fn stream_at_entry(s: Seq<u8>, xref: Map<u32, XrefEntry>, objects: Map<ObjectId, Object>, c: u32,
    os: ObjectStream) -> bool {
    &&& entry_read(s, xref, c) matches Some((cid, v, _))
    &&& is_object_stream(v)
    &&& objects.contains_key(cid)
    &&& objects[cid] matches Object::Stream(st)
    &&& object_stream_read(st.dict@, st.content@, Ok(os))
}

/// Whether `objects` holds `id` as an object stream that it keeps gives it.
pub open spec fn stream_member(s: Seq<u8>, xref: Map<u32, XrefEntry>, objects: Map<ObjectId, Object>, id: ObjectId) -> bool {
    exists|c: u32, os: ObjectStream| #[trigger] stream_at_entry(s, xref, objects, c, os)
        && os.objects@.contains_key(id) && objects[id]@ == os.objects@[id]@
}

/// Whether `objects` holds `id` as the entry of its number reads it: a
/// plain object as read (its data read again, for a stream), an object
/// stream decoded.
pub open spec fn entry_object(s: Seq<u8>, xref: Map<u32, XrefEntry>, objects: Map<ObjectId, Object>, id: ObjectId) -> bool {
    &&& entry_read(s, xref, id.0) matches Some((rid, v, pos))
    &&& rid == id
    &&& if is_object_stream(v) {
        objects[id] matches Object::Stream(st) && container_decoded(v, pos, st)
    } else {
        loaded_as(objects[id], v, pos, s)
    }
}

/// Whether `objects` keeps the object stream that entry `c` of the table
/// locates, where there is one, decoded, wherever it reads as an object
/// stream, with each object that it holds.
pub open spec fn stream_kept(s: Seq<u8>, xref: Map<u32, XrefEntry>, objects: Map<ObjectId, Object>, c: u32) -> bool {
    match entry_read(s, xref, c) {
        Some((cid, v, pos)) => is_object_stream(v) ==> exists|st: Stream|
            #[trigger] container_decoded(v, pos, st)
            && ((exists|os: ObjectStream| object_stream_read(st.dict@, st.content@, Ok(os))) ==> {
                &&& objects.contains_key(cid)
                &&& objects[cid] == Object::Stream(st)
                &&& forall|os: ObjectStream, id: ObjectId| object_stream_read(st.dict@, st.content@, Ok(os))
                    && #[trigger] os.objects@.contains_key(id) ==> objects.contains_key(id)
            }),
        None => true,
    }
}

/// What reading at the offset of entry `k` of the table gives, where the
/// entry is in use and the object there reads.
pub open spec fn entry_read(s: Seq<u8>, xref: Map<u32, XrefEntry>, k: u32) -> Option<(ObjectId, PdfValue, Option<int>)> {
    if xref.contains_key(k) && xref[k] is Normal {
        match spec_read_object(s, s, xref, xref[k]->offset as int, None, Seq::empty()) {
            Ok(x) => Some(x),
            Err(_) => None,
        }
    } else {
        None
    }
}

/// Whether each object that an entry of the table locates carries the
/// number of that entry.
pub open spec fn entries_own_numbers(s: Seq<u8>, xref: Map<u32, XrefEntry>) -> bool {
    forall|k: u32| #[trigger] entry_read(s, xref, k) matches Some((id, _, _)) ==> id.0 == k
}

/// Whether `o` is the stream `o0` with its data read again from the file
/// `s`: from where the data of `o0` starts, some bytes, with /Length set to
/// their number.
pub open spec fn stream_refilled(o0: Object, o: Object, s: Seq<u8>) -> bool {
    &&& o0 matches Object::Stream(s1)
    &&& o matches Object::Stream(s2)
    &&& s1.start_position matches Some(p)
    &&& exists|len: int| 0 <= len && p + len <= s.len() && #[trigger] s.subrange(p as int, p + len) == s2.content@
        && s2.dict@ == entries_set(s1.dict@, length_bytes(), Object::Integer(len as i64))
    &&& s2.allows_compression == s1.allows_compression
    &&& s2.start_position == s1.start_position
}

/// Whether `o` is what reading `v` at `pos` in the file `s` loads: that
/// object, or, for a stream whose data was not read with it, that stream with
/// its data read again.
pub open spec fn loaded_as(o: Object, v: PdfValue, pos: Option<int>, s: Seq<u8>) -> bool {
    ||| read_as(o, v, pos)
    ||| exists|o0: Object| read_as(o0, v, pos) && #[trigger] stream_refilled(o0, o, s)
}

/// Reading the data of stream `zl[i]` again keeps what each entry loaded.
proof fn lemma_refill_step(s: Seq<u8>, table: Map<u32, XrefEntry>, zl: Seq<ObjectId>, i: int,
    before: Map<ObjectId, Object>, after: Map<ObjectId, Object>, r: Result<(), Error>)
    requires
        0 <= i < zl.len(),
        zl.no_duplicates(),
        forall|x: ObjectId| #[trigger] zl.subrange(i, zl.len() as int).contains(x) ==> before.contains_key(x)
            && before[x] is Stream,
        forall|k: u32| #[trigger] plain_entry_object(s, table, k) matches Some(id)
            ==> (entry_read(s, table, k) matches Some((_, v, pos)) && before.contains_key(id)
            && loaded_as(before[id], v, pos, s)
            && (zl.subrange(i, zl.len() as int).contains(id) ==> read_as(before[id], v, pos))),
        match stream_data_span(before, zl[i]) {
            Some((t, p, len)) => if 0 <= len && p + len <= s.len() {
                r is Ok && stream_data_set(before, after, t, s.subrange(p, p + len))
            } else {
                r is Err
            },
            None => r is Err,
        },
        r is Err ==> after == before,
    ensures
        forall|x: ObjectId| #[trigger] zl.subrange(i + 1, zl.len() as int).contains(x) ==> after.contains_key(x)
            && after[x] is Stream,
        forall|k: u32| #[trigger] plain_entry_object(s, table, k) matches Some(id)
            ==> (entry_read(s, table, k) matches Some((_, v, pos)) && after.contains_key(id)
            && loaded_as(after[id], v, pos, s)
            && (zl.subrange(i + 1, zl.len() as int).contains(id) ==> read_as(after[id], v, pos))),
{
    let z = zl[i];
    assert(zl.subrange(i, zl.len() as int)[0] == z);
    assert(zl.subrange(i, zl.len() as int).contains(z));
    assert forall|x: ObjectId| #[trigger] zl.subrange(i + 1, zl.len() as int).contains(x)
        implies zl.subrange(i, zl.len() as int).contains(x) && x != z by {
        let q = choose|q: int| 0 <= q < zl.len() - (i + 1) && #[trigger] zl.subrange(i + 1, zl.len() as int)[q] == x;
        assert(zl.subrange(i, zl.len() as int)[q + 1] == x);
        assert(zl[i + 1 + q] == x);
    }
    if r is Ok {
        assert(before[z] is Stream);
        assert(chain_end(before, z) == z);
        let (t, p, len) = stream_data_span(before, z)->0;
        assert(t == z);
        assert forall|k: u32| (#[trigger] plain_entry_object(s, table, k) matches Some(id)
            ==> (entry_read(s, table, k) matches Some((_, v, pos)) && after.contains_key(id)
            && loaded_as(after[id], v, pos, s)
            && (zl.subrange(i + 1, zl.len() as int).contains(id) ==> read_as(after[id], v, pos)))) by {
            let id = plain_entry_object(s, table, k)->0;
            if plain_entry_object(s, table, k) is None {
            } else if id == z {
                let (_, v, pos) = entry_read(s, table, k)->0;
                assert(zl.subrange(i, zl.len() as int).contains(id));
                assert(read_as(before[z], v, pos));
                assert(s.subrange(p as int, p + len) == after[z]->Stream_0.content@);
                assert(stream_refilled(before[z], after[z], s));
            } else {
                assert(after[id] == before[id]);
            }
        }
    }
}

/// One entry more read into the objects keeps what the entries before it
/// gave: each object sits at its own number.
proof fn lemma_load_step(s: Seq<u8>, table: Map<u32, XrefEntry>, entries: Seq<(&u32, &XrefEntry)>, j: int,
    objs0: Map<ObjectId, Object>, objs1: Map<ObjectId, Object>, zl0: Seq<ObjectId>, zl1: Seq<ObjectId>,
    stored: Option<ObjectId>)
    requires
        0 <= j < entries.len(),
        entries_own_numbers(s, table),
        entries.no_duplicates(),
        forall|i: int| #![trigger entries[i]] 0 <= i < entries.len() ==> table.contains_key(*entries[i].0)
            && table[*entries[i].0] == *entries[i].1,
        forall|i: int| 0 <= i < j ==> (#[trigger] plain_entry_object(s, table, *entries[i].0)
            matches Some(id) ==> (entry_read(s, table, *entries[i].0) matches Some((_, v, pos))
            && objs0.contains_key(id) && read_as(objs0[id], v, pos))),
        zl0.no_duplicates(),
        forall|x: ObjectId| #[trigger] zl0.contains(x) ==> objs0.contains_key(x)
            && objs0[x] is Stream && exists|i: int| 0 <= i < j && *entries[i].0 == x.0,
        forall|x: ObjectId| #[trigger] objs0.contains_key(x) ==> exists|i: int| 0 <= i < j && *entries[i].0 == x.0,
        stored matches Some(id) ==> id.0 == *entries[j].0,
        stored is None ==> objs1 == objs0,
        stored matches Some(id) ==> objs1 == objs0.insert(id, objs1[id]),
        zl1 == zl0 || (stored matches Some(id) && zl1 == zl0.push(id) && objs1[id] is Stream),
        plain_entry_object(s, table, *entries[j].0) matches Some(id) ==> (stored == Some(id)
            && (entry_read(s, table, *entries[j].0) matches Some((_, v, pos)) && read_as(objs1[id], v, pos))),
    ensures
        forall|i: int| 0 <= i < j + 1 ==> (#[trigger] plain_entry_object(s, table, *entries[i].0)
            matches Some(id) ==> (entry_read(s, table, *entries[i].0) matches Some((_, v, pos))
            && objs1.contains_key(id) && read_as(objs1[id], v, pos))),
        zl1.no_duplicates(),
        forall|x: ObjectId| #[trigger] zl1.contains(x) ==> objs1.contains_key(x)
            && objs1[x] is Stream && exists|i: int| 0 <= i < j + 1 && *entries[i].0 == x.0,
        forall|x: ObjectId| #[trigger] objs1.contains_key(x) ==> exists|i: int| 0 <= i < j + 1 && *entries[i].0 == x.0,
{
    assert forall|i: int| 0 <= i < j implies *entries[i].0 != *entries[j].0 by {
        if *entries[i].0 == *entries[j].0 {
            assert(table.contains_key(*entries[i].0) && table[*entries[i].0] == *entries[i].1);
            assert(table.contains_key(*entries[j].0) && table[*entries[j].0] == *entries[j].1);
            assert(*entries[i].1 == *entries[j].1);
            assert(entries[i] == entries[j]);
        }
    }
    assert forall|i: int| 0 <= i < j + 1 implies (#[trigger] plain_entry_object(s, table, *entries[i].0)
        matches Some(id) ==> (entry_read(s, table, *entries[i].0) matches Some((_, v, pos))
        && objs1.contains_key(id) && read_as(objs1[id], v, pos))) by {
        if i < j {
            if let Some(id) = plain_entry_object(s, table, *entries[i].0) {
                assert(entry_read(s, table, *entries[i].0) matches Some((id2, _, _)) && id2 == id);
                assert(id.0 == *entries[i].0);
            }
        }
    }
    if let Some(id) = stored {
        if zl1 != zl0 {
            assert(!zl0.contains(id)) by {
                if zl0.contains(id) {
                    let i = choose|i: int| 0 <= i < j && *entries[i].0 == id.0;
                }
            }
            assert forall|x: ObjectId| #[trigger] zl1.contains(x) implies objs1.contains_key(x)
                && objs1[x] is Stream && exists|i: int| 0 <= i < j + 1 && *entries[i].0 == x.0 by {
                if x != id {
                    assert(zl0.contains(x)) by {
                        let i = choose|i: int| 0 <= i < zl1.len() && zl1[i] == x;
                        assert(i < zl0.len());
                        assert(zl0[i] == x);
                    }
                    let i = choose|i: int| 0 <= i < j && *entries[i].0 == x.0;
                    assert(0 <= i < j + 1 && *entries[i].0 == x.0);
                } else {
                    assert(*entries[j].0 == x.0);
                }
            }
        } else {
            assert forall|x: ObjectId| #[trigger] zl1.contains(x) implies objs1.contains_key(x)
                && objs1[x] is Stream && exists|i: int| 0 <= i < j + 1 && *entries[i].0 == x.0 by {
                let i = choose|i: int| 0 <= i < j && *entries[i].0 == x.0;
                assert(0 <= i < j + 1 && *entries[i].0 == x.0);
                if x == id {
                    assert(false);
                }
            }
        }
        assert forall|x: ObjectId| #[trigger] objs1.contains_key(x) implies exists|i: int| 0 <= i < j + 1 && *entries[i].0 == x.0 by {
            if x == id {
                assert(*entries[j].0 == x.0);
            } else {
                let i = choose|i: int| 0 <= i < j && *entries[i].0 == x.0;
                assert(0 <= i < j + 1 && *entries[i].0 == x.0);
            }
        }
    } else {
        assert forall|x: ObjectId| #[trigger] zl1.contains(x) implies objs1.contains_key(x)
            && objs1[x] is Stream && exists|i: int| 0 <= i < j + 1 && *entries[i].0 == x.0 by {
            let i = choose|i: int| 0 <= i < j && *entries[i].0 == x.0;
            assert(0 <= i < j + 1 && *entries[i].0 == x.0);
        }
        assert forall|x: ObjectId| #[trigger] objs1.contains_key(x) implies exists|i: int| 0 <= i < j + 1 && *entries[i].0 == x.0 by {
            let i = choose|i: int| 0 <= i < j && *entries[i].0 == x.0;
            assert(0 <= i < j + 1 && *entries[i].0 == x.0);
        }
    }
}

/// Where the search for `%PDF-` in `g + b` goes from `start` on, with `g`
/// holding no `%PDF-` and `b` starting with it: it finds the start of `b`.
proof fn lemma_header_after(g: Seq<u8>, b: Seq<u8>, start: int)
    requires
        0 <= start <= g.len(),
        first_occurrence(g, crate::file_structure::header_word(), 0) is None,
        b.len() >= 5,
        b.subrange(0, 5) == crate::file_structure::header_word(),
    ensures
        first_occurrence(g + b, crate::file_structure::header_word(), start) == Some(g.len() as int),
    decreases g.len() - start,
{
    let w = crate::file_structure::header_word();
    let gb = g + b;
    if start == g.len() {
        assert(gb.subrange(start, start + 5) =~= b.subrange(0, 5));
    } else {
        assert(!has_word(gb, start, w)) by {
            if has_word(gb, start, w) {
                if start + 5 <= g.len() {
                    assert(gb.subrange(start, start + 5) =~= g.subrange(start, start + 5));
                    lemma_no_word_from(g, w, 0, start);
                } else {
                    let j = g.len() - start;
                    assert(gb.subrange(start, start + 5)[j] == b[0]);
                    assert(b.subrange(0, 5)[0] == b[0]);
                }
            }
        }
        lemma_header_after(g, b, start + 1);
    }
}

/// Where a search finds nothing from `from` on, the word stands nowhere
/// from there on.
proof fn lemma_no_word_from(g: Seq<u8>, w: Seq<u8>, from: int, at: int)
    requires
        0 <= from <= at,
        first_occurrence(g, w, from) is None,
    ensures
        !has_word(g, at, w),
    decreases at - from,
{
    if from < at {
        if !(from < 0 || from + w.len() > g.len()) {
            lemma_no_word_from(g, w, from + 1, at);
        }
    }
}

/// Bytes before the first `%PDF-` of a file are passed over: reading `g`
/// followed by a file `b` that starts with `%PDF-` reads the same bytes as
/// reading `b`, where `g` holds no `%PDF-` itself.
pub proof fn lemma_preceding_bytes_passed_over(g: Seq<u8>, b: Seq<u8>)
    requires
        first_occurrence(g, crate::file_structure::header_word(), 0) is None,
        b.len() >= 5,
        b.subrange(0, 5) == crate::file_structure::header_word(),
    ensures
        pdf_part(g + b) == pdf_part(b),
        pdf_part(b) == b,
{
    let w = crate::file_structure::header_word();
    lemma_header_after(g, b, 0);
    assert((g + b).subrange(g.len() as int, (g + b).len() as int) =~= b);
    lemma_header_after(Seq::empty(), b, 0);
    assert(Seq::<u8>::empty() + b =~= b);
    assert(first_occurrence(Seq::<u8>::empty(), w, 0) is None);
    assert(b.subrange(0, b.len() as int) =~= b);
}

/// Bytes before the header leave reading unchanged: where `g` holds no
/// `%PDF-` and the file `b` starts with one, reading `g` followed by `b`
/// reads `b` itself, so an outcome is one of reading the one exactly when
/// it is one of reading the other.
pub proof fn lemma_leading_bytes_leave_read_unchanged(g: Seq<u8>, b: Seq<u8>, table: Map<u32, XrefEntry>,
    r: Result<Document, Error>)
    requires
        first_occurrence(g, crate::file_structure::header_word(), 0) is None,
        b.len() >= 5,
        b.subrange(0, 5) == crate::file_structure::header_word(),
    ensures
        pdf_part(g + b) == b,
        read_outcome(pdf_part(g + b), table, r) == read_outcome(b, table, r),
{
    lemma_preceding_bytes_passed_over(g, b);
}

/// The version that the header at the start of `s` gives, as text.
pub open spec fn header_version(s: Seq<u8>) -> Option<Seq<char>> {
    match crate::file_structure::spec_header(s) {
        Some(h) => if valid_utf8(h) { Some(decode_utf8(h)) } else { None },
        None => None,
    }
}

/// The bytes of a file from its first `%PDF-` on, or all of them.
pub open spec fn pdf_part(s: Seq<u8>) -> Seq<u8> {
    match first_occurrence(s, crate::file_structure::header_word(), 0) {
        Some(i) => s.subrange(i, s.len() as int),
        None => s,
    }
}

impl<'a> Reader<'a> {
    /// The length of the stream `id` as its /Length gives it, references
    /// followed.
    fn get_stream_length(&self, object_id: ObjectId) -> (r: Result<i64, Error>)
        ensures
            match stream_length(self.document.objects@, object_id) {
                Some(v) => r == Ok::<i64, Error>(v),
                None => r is Err,
            },
    {
        let object = self.document.get_object(object_id)?;
        let stream = object.as_stream()?;
        let value = stream.dict.get(length_key().as_slice())?;
        let (_, o) = self.document.dereference(value)?;
        o.as_i64()
    }

    /// Reads the data of stream `object_id`, whose length was not known
    /// when it was read, from where its data starts.
    fn read_stream_content(&mut self, object_id: ObjectId) -> (r: Result<(), Error>)
        ensures
            final(self).document.encryption_state == old(self).document.encryption_state,
            match stream_data_span(old(self).document.objects@, object_id) {
                Some((t, p, len)) => if 0 <= len && p + len <= old(self).buffer@.len() {
                    r is Ok && stream_data_set(old(self).document.objects@, final(self).document.objects@, t,
                        old(self).buffer@.subrange(p, p + len))
                } else {
                    r is Err
                },
                None => r is Err,
            },
            final(self).document.objects@.dom() == old(self).document.objects@.dom(),
            r is Err ==> final(self).document.objects == old(self).document.objects,
            final(self).buffer == old(self).buffer,
            final(self).document.reference_table == old(self).document.reference_table,
            final(self).document.trailer == old(self).document.trailer,
            final(self).document.version == old(self).document.version,
            final(self).document.max_id == old(self).document.max_id,
            final(self).document.xref_start == old(self).document.xref_start,
    {
        let ghost objs = self.document.objects@;
        let length = self.get_stream_length(object_id)?;
        proof {
            if self.document.objects@.contains_key(object_id) {
                lemma_deref_names(self.document.objects@, self.document.objects@[object_id], None, 0);
            }
        }
        let target = match self.document.objects.get(&object_id) {
            Some(object) => match self.document.dereference(object) {
                Ok((Some(id), _)) => id,
                Ok((None, _)) => object_id,
                Err(e) => {
                    return Err(e);
                },
            },
            None => {
                return Err(Error::ObjectNotFound);
            },
        };
        assert(target == chain_end(objs, object_id));
        let start = match self.document.objects.get(&target) {
            Some(Object::Stream(st)) => match st.start_position {
                Some(p) => p,
                None => {
                    return Err(Error::InvalidStream("missing start position".to_string()));
                },
            },
            Some(o) => {
                return Err(Error::ObjectType { expected: "Stream", found: o.enum_variant() });
            },
            None => {
                return Err(Error::ObjectNotFound);
            },
        };
        assert(stream_data_span(objs, object_id) == Some((target, start as int, length as int)));
        if length < 0 {
            return Err(Error::InvalidStream("negative stream length.".to_string()));
        }
        let len = self.buffer.len();
        assert(start + length <= len ==> length <= usize::MAX);
        if length as u64 > usize::MAX as u64 {
            return Err(Error::NumericCast("out of range integral type conversion attempted".to_string()));
        }
        let length = length as usize;
        if start > len || length > len - start {
            return Err(Error::InvalidStream("stream extends after document end.".to_string()));
        }
        let data = crate::parser::copy_range(self.buffer, start, start + length);
        assert(self.document.objects@ == objs);
        match self.document.objects.remove(&target) {
            Some(Object::Stream(mut st)) => {
                assert(objs[target] == Object::Stream(st));
                st.set_content(data);
                self.document.objects.insert(target, Object::Stream(st));
                assert(self.document.objects@ == objs.insert(target, Object::Stream(st)));
            },
            Some(o) => {
                self.document.objects.insert(target, o);
            },
            None => {},
        }
        assert(stream_data_set(objs, self.document.objects@, target, self.buffer@.subrange(start as int, start + length)));
        Ok(())
    }

    /// Reads the object that entry `k` of the table locates into `objects`:
    /// an object stream of an unencrypted file decoded, with its objects
    /// added to `members`, and left out where it does not read as one; for
    /// another stream with no data, its number added to `empty`.
    fn load_entry(&self, k: u32, entry: &XrefEntry, is_encrypted: bool, objects: &mut BTreeMap<ObjectId, Object>,
        members: &mut Vec<(ObjectId, Object)>, empty: &mut Vec<ObjectId>) -> (os: Ghost<Option<ObjectStream>>)
        requires
            self.table().contains_key(k),
            self.table()[k] == *entry,
        ensures
            entry_step(self.buffer@, self.table(), k, is_encrypted, old(objects)@, final(objects)@, os@,
                old(members)@, final(members)@, old(empty)@, final(empty)@),
    {
        let ghost s = self.buffer@;
        let ghost table = self.table();
        match entry {
            XrefEntry::Normal { offset, .. } => {
                let seen: Vec<ObjectId> = Vec::new();
                assert(seen@ =~= Seq::<ObjectId>::empty());
                match self.read_object_in(self.buffer, *offset as usize, None, &seen) {
                    Ok((id, object)) => {
                        match object {
                            Object::Stream(st) => {
                                let mut st = st;
                                let ghost st0 = st;
                                proof {
                                    crate::object::lemma_stream_value(st);
                                    crate::object::lemma_entries_get_values(dict_pairs(st.dict), type_bytes());
                                }
                                if st.dict.has_type(obj_stm_key().as_slice()) && !is_encrypted {
                                    let read_os = ObjectStream::new(&mut st);
                                    proof {
                                        let (_, v, pos) = entry_read(s, table, k)->0;
                                        assert(read_as(Object::Stream(st0), v, pos));
                                        assert(container_decoded(v, pos, st));
                                    }
                                    match read_os {
                                        Ok(os) => {
                                            append_objects(members, &os.objects);
                                            let ghost osg = os;
                                            objects.insert(id, Object::Stream(st));
                                            Ghost(Some(osg))
                                        },
                                        Err(_) => {
                                            assert forall|o2: ObjectStream|
                                                !object_stream_read(st.dict@, st.content@, Ok(o2)) by {}
                                            Ghost(None)
                                        },
                                    }
                                } else {
                                    if st.content.len() == 0 {
                                        empty.push(id);
                                    }
                                    objects.insert(id, Object::Stream(st));
                                    Ghost(None)
                                }
                            },
                            other => {
                                objects.insert(id, other);
                                Ghost(None)
                            },
                        }
                    },
                    Err(_) => Ghost(None),
                }
            },
            _ => Ghost(None),
        }
    }

    /// Reads every object that the cross-reference table locates, then the
    /// objects of object streams that no entry gave, then the data of streams
    /// whose length was not known when they were read.
    #[verifier::rlimit(60)]
    #[verifier::spinoff_prover]
    fn load_objects_raw(&mut self)
        ensures
            final(self).document.encryption_state == old(self).document.encryption_state,
            forall|k: u32| #[trigger] plain_entry_object(old(self).buffer@, old(self).table(), k) matches Some(id)
                ==> final(self).document.objects@.contains_key(id),
            entries_own_numbers(old(self).buffer@, old(self).table()) ==> forall|k: u32|
                #[trigger] plain_entry_object(old(self).buffer@, old(self).table(), k) matches Some(id)
                ==> (entry_read(old(self).buffer@, old(self).table(), k) matches Some((_, v, pos))
                && loaded_as(final(self).document.objects@[id], v, pos, old(self).buffer@)),
            entries_get(old(self).document.trailer@, encrypt_bytes()) is None
                && entries_own_numbers(old(self).buffer@, old(self).table()) ==> {
                &&& forall|id: ObjectId| #[trigger] final(self).document.objects@.contains_key(id)
                    ==> entry_object(old(self).buffer@, old(self).table(), final(self).document.objects@, id)
                    || stream_member(old(self).buffer@, old(self).table(), final(self).document.objects@, id)
                &&& forall|c: u32| #[trigger] stream_kept(old(self).buffer@, old(self).table(),
                    final(self).document.objects@, c)
            },
            final(self).buffer == old(self).buffer,
            final(self).document.reference_table == old(self).document.reference_table,
            final(self).document.trailer == old(self).document.trailer,
            final(self).document.version == old(self).document.version,
            final(self).document.max_id == old(self).document.max_id,
            final(self).document.xref_start == old(self).document.xref_start,
    {
        proof {
            crate::object::lemma_entries_get_values(dict_pairs(self.document.trailer), encrypt_bytes());
        }
        let is_encrypted = self.document.trailer.get(encrypt_key().as_slice()).is_ok();
        let mut objects: BTreeMap<ObjectId, Object> = BTreeMap::new();
        let mut from_streams: Vec<(ObjectId, Object)> = Vec::new();
        let mut zero_length: Vec<ObjectId> = Vec::new();
        let ghost s = self.buffer@;
        let ghost table = self.table();
        let ghost own = entries_own_numbers(s, table);
        let ghost g = own && !is_encrypted;
        let ghost mut kept: Map<u32, ObjectStream> = Map::empty();
        for kv in it: self.document.reference_table.entries.iter()
            invariant
                s == self.buffer@,
                table == self.table(),
                own == entries_own_numbers(s, table),
                g == (own && !is_encrypted),
                it.seq().no_duplicates(),
                forall|j: int| 0 <= j < it.seq().len() ==> #[trigger] table.contains_key(*it.seq()[j].0)
                    && table[*it.seq()[j].0] == *it.seq()[j].1,
                own ==> forall|j: int| 0 <= j < it.index() ==> (#[trigger] plain_entry_object(s, table, *it.seq()[j].0)
                    matches Some(id) ==> (entry_read(s, table, *it.seq()[j].0) matches Some((_, v, pos))
                    && objects@.contains_key(id) && read_as(objects@[id], v, pos))),
                own ==> zero_length@.no_duplicates(),
                own ==> forall|x: ObjectId| #[trigger] zero_length@.contains(x) ==> objects@.contains_key(x)
                    && objects@[x] is Stream && exists|j: int| 0 <= j < it.index() && *it.seq()[j].0 == x.0,
                own ==> forall|x: ObjectId| #[trigger] objects@.contains_key(x) ==> exists|j: int| 0 <= j < it.index()
                    && *it.seq()[j].0 == x.0,
                forall|k: u32| #[trigger] table.contains_key(k) ==> exists|j: int| 0 <= j < it.seq().len() && *it.seq()[j].0 == k,
                forall|j: int| 0 <= j < it.index() ==> (#[trigger] plain_entry_object(s, table, *it.seq()[j].0)
                    matches Some(id) ==> objects@.contains_key(id)),
                forall|k: u32| #[trigger] plain_entry_object(s, table, k) matches Some(id) ==> (objects@.contains_key(id)
                    || exists|j: int| it.index() <= j < it.seq().len() && *it.seq()[j].0 == k),
                g ==> forall|x: ObjectId| #[trigger] objects@.contains_key(x) ==> kept_at(s, table, objects@, kept, x),
                g ==> forall|x: ObjectId| #[trigger] zero_length@.contains(x) ==> (entry_read(s, table, x.0)
                    matches Some((rid, v, _)) && rid == x && !is_object_stream(v)),
                g ==> forall|c: u32| #[trigger] kept.contains_key(c) ==> (entry_read(s, table, c) matches Some((cid, v, _))
                    && cid.0 == c && is_object_stream(v) && objects@.contains_key(cid)),
                g ==> forall|c: u32, id: ObjectId| #[trigger] kept.contains_key(c)
                    && #[trigger] kept[c].objects@.contains_key(id) ==> listed(from_streams@, id),
                g ==> forall|i: int| 0 <= i < from_streams@.len() ==> #[trigger] from_kept(kept, from_streams@[i]),
                g ==> forall|c: u32| #[trigger] container_placed(s, table, objects@, kept, c)
                    || exists|jj: int| it.index() <= jj < it.seq().len() && *it.seq()[jj].0 == c,
        {
            let (k, entry) = kv;
            let ghost j = it.index();
            let ghost objs0 = objects@;
            let ghost zl0 = zero_length@;
            let ghost kept0 = kept;
            let ghost fs0 = from_streams@;
            assert(*it.seq()[j].0 == *k && *it.seq()[j].1 == *entry);
            let os = self.load_entry(*k, entry, is_encrypted, &mut objects, &mut from_streams, &mut zero_length);
            proof {
                lemma_keys_apart(table, it.seq(), j);
                if let Some(o) = os@ {
                    kept = kept.insert(*k, o);
                }
                let stored: Option<ObjectId> = match entry_read(s, table, *k) {
                    Some((id, v, _)) => if is_object_stream(v) && !is_encrypted {
                        if os@ is Some { Some(id) } else { None }
                    } else {
                        Some(id)
                    },
                    None => None,
                };
                if own {
                    assert(stored matches Some(id) ==> id.0 == *k);
                    lemma_load_step(s, table, it.seq(), j, objs0, objects@, zl0, zero_length@, stored);
                }
                if g {
                    lemma_kept_step(s, table, it.seq(), j, objs0, objects@, kept0, kept, fs0, from_streams@, zl0,
                        zero_length@, os@);
                }
            }
        }
        let ghost objs1 = objects@;
        let mut i: usize = 0;
        while i < from_streams.len()
            invariant
                i <= from_streams@.len(),
                forall|k: u32| #[trigger] plain_entry_object(s, table, k) matches Some(id) ==> objects@.contains_key(id),
                own ==> forall|k: u32| #[trigger] plain_entry_object(s, table, k) matches Some(id)
                    ==> (entry_read(s, table, k) matches Some((_, v, pos)) && objects@.contains_key(id)
                    && read_as(objects@[id], v, pos)),
                own ==> zero_length@.no_duplicates(),
                own ==> forall|x: ObjectId| #[trigger] zero_length@.contains(x) ==> objects@.contains_key(x)
                    && objects@[x] is Stream,
                forall|x: ObjectId| #[trigger] objs1.contains_key(x) ==> objects@.contains_key(x) && objects@[x] == objs1[x],
                forall|x: ObjectId| #[trigger] objects@.contains_key(x) ==> objs1.contains_key(x)
                    || exists|ii: int| 0 <= ii < i && from_streams@[ii].0 == x && objects@[x]@ == from_streams@[ii].1@,
                forall|ii: int| 0 <= ii < i ==> objects@.contains_key(#[trigger] from_streams@[ii].0),
            decreases from_streams@.len() - i,
        {
            let id = from_streams[i].0;
            let ghost before = objects@;
            if !objects.contains_key(&id) {
                let o = clone_object(&from_streams[i].1);
                objects.insert(id, o);
            }
            proof {
                assert forall|x: ObjectId| #[trigger] objects@.contains_key(x) implies objs1.contains_key(x)
                    || exists|ii: int| 0 <= ii < i + 1 && from_streams@[ii].0 == x && objects@[x]@ == from_streams@[ii].1@ by {
                    if x != id || before.contains_key(x) {
                        assert(before.contains_key(x) && objects@[x] == before[x]);
                    } else {
                        assert(from_streams@[i as int].0 == x);
                    }
                }
            }
            i = i + 1;
        }
        let ghost objs2 = objects@;
        self.document.objects = objects;
        proof {
            assert(zero_length@.subrange(0, zero_length@.len() as int) =~= zero_length@);
        }
        let mut i: usize = 0;
        while i < zero_length.len()
            invariant
                s == self.buffer@,
                table == self.table(),
                self.document.trailer == old(self).document.trailer,
                self.document.version == old(self).document.version,
                self.document.max_id == old(self).document.max_id,
                self.document.xref_start == old(self).document.xref_start,
                self.document.reference_table == old(self).document.reference_table,
                self.document.encryption_state == old(self).document.encryption_state,
                forall|k: u32| #[trigger] plain_entry_object(s, table, k) matches Some(id)
                    ==> self.document.objects@.contains_key(id),
                i <= zero_length@.len(),
                own ==> zero_length@.no_duplicates(),
                own ==> forall|x: ObjectId| #[trigger] zero_length@.subrange(i as int, zero_length@.len() as int).contains(x)
                    ==> self.document.objects@.contains_key(x) && self.document.objects@[x] is Stream,
                own ==> forall|k: u32| #[trigger] plain_entry_object(s, table, k) matches Some(id)
                    ==> (entry_read(s, table, k) matches Some((_, v, pos)) && self.document.objects@.contains_key(id)
                    && loaded_as(self.document.objects@[id], v, pos, s)
                    && (zero_length@.subrange(i as int, zero_length@.len() as int).contains(id)
                        ==> read_as(self.document.objects@[id], v, pos))),
                self.document.objects@.dom() == objs2.dom(),
                own ==> forall|x: ObjectId| !zero_length@.contains(x)
                    ==> #[trigger] unchanged_at(objs2, self.document.objects@, x),
            decreases zero_length@.len() - i,
        {
            let ghost before = self.document.objects@;
            proof {
                if own {
                    assert(zero_length@.subrange(i as int, zero_length@.len() as int)[0] == zero_length@[i as int]);
                }
            }
            let r = self.read_stream_content(zero_length[i]);
            proof {
                if own {
                    assert(zero_length@.subrange(i as int, zero_length@.len() as int).contains(zero_length@[i as int]));
                    assert(before[zero_length@[i as int]] is Stream);
                    assert(chain_end(before, zero_length@[i as int]) == zero_length@[i as int]);
                    lemma_refill_step(s, table, zero_length@, i as int, before, self.document.objects@, r);
                    assert forall|x: ObjectId| !zero_length@.contains(x)
                        implies #[trigger] unchanged_at(objs2, self.document.objects@, x) by {
                        assert(unchanged_at(objs2, before, x));
                        assert(x != zero_length@[i as int]);
                    }
                }
            }
            i = i + 1;
        }
        proof {
            if g {
                lemma_objects_loaded(s, table, objs1, objs2, self.document.objects@, kept, from_streams@, zero_length@);
            }
        }
    }
}

/// Whether `fs` is `fs0` with the objects of `m`, copied, after it.
spec fn members_added(fs0: Seq<(ObjectId, Object)>, fs: Seq<(ObjectId, Object)>, m: Map<ObjectId, Object>) -> bool {
    &&& fs.len() >= fs0.len()
    &&& forall|i: int| 0 <= i < fs0.len() ==> fs[i] == fs0[i]
    &&& forall|i: int| fs0.len() <= i < fs.len() ==> #[trigger] m.contains_key(fs[i].0) && m[fs[i].0]@ == fs[i].1@
    &&& forall|id: ObjectId| #[trigger] m.contains_key(id) ==> listed(fs, id)
}

/// Adds the objects of `objects`, copied, after those of `members`.
fn append_objects(members: &mut Vec<(ObjectId, Object)>, objects: &BTreeMap<ObjectId, Object>)
    ensures
        members_added(old(members)@, final(members)@, objects@),
{
    let ghost fs0 = members@;
    for kv in it: objects.iter()
        invariant
            members@.len() >= fs0.len(),
            forall|i: int| 0 <= i < fs0.len() ==> members@[i] == fs0[i],
            forall|i: int| fs0.len() <= i < members@.len() ==> #[trigger] objects@.contains_key(members@[i].0)
                && objects@[members@[i].0]@ == members@[i].1@,
            forall|i: int| 0 <= i < it.seq().len() ==> #[trigger] objects@.contains_key(*it.seq()[i].0)
                && objects@[*it.seq()[i].0] == *it.seq()[i].1,
            forall|id: ObjectId| #[trigger] objects@.contains_key(id) ==> listed(members@, id)
                || exists|i: int| it.index() <= i < it.seq().len() && *it.seq()[i].0 == id,
    {
        let (id, o) = kv;
        let ghost fs1 = members@;
        let ghost i0 = it.index();
        members.push((*id, clone_object(o)));
        proof {
            assert(*it.seq()[i0].0 == *id && *it.seq()[i0].1 == *o);
            assert forall|x: ObjectId| listed(fs1, x) implies listed(members@, x) by {
                let i = choose|i: int| 0 <= i < fs1.len() && fs1[i].0 == x;
                assert(members@[i] == fs1[i]);
            }
            assert(members@[fs1.len() as int].0 == *id);
            assert(listed(members@, *id));
            assert forall|x: ObjectId| #[trigger] objects@.contains_key(x) && !listed(members@, x)
                implies exists|i: int| i0 + 1 <= i < it.seq().len() && *it.seq()[i].0 == x by {
                if !listed(fs1, x) {
                    let i = choose|i: int| i0 <= i < it.seq().len() && *it.seq()[i].0 == x;
                    assert(i != i0);
                }
            }
        }
    }
}

/// What reading entry `k` of the table does to the objects read so far
/// (`objs0` to `objs`), to the objects taken from object streams (`fs0` to
/// `fs`) and to the streams with no data (`zl0` to `zl`), with `os` what
/// an object stream read there holds; `enc` whether the file is encrypted.
spec fn entry_step(s: Seq<u8>, xref: Map<u32, XrefEntry>, k: u32, enc: bool, objs0: Map<ObjectId, Object>,
    objs: Map<ObjectId, Object>, os: Option<ObjectStream>, fs0: Seq<(ObjectId, Object)>, fs: Seq<(ObjectId, Object)>,
    zl0: Seq<ObjectId>, zl: Seq<ObjectId>) -> bool {
    match entry_read(s, xref, k) {
        None => objs == objs0 && os is None && fs == fs0 && zl == zl0,
        Some((id, v, pos)) => if is_object_stream(v) && !enc {
            &&& zl == zl0
            &&& exists|st: Stream| #[trigger] container_decoded(v, pos, st) && match os {
                Some(o) => object_stream_read(st.dict@, st.content@, Ok(o))
                    && objs == objs0.insert(id, Object::Stream(st)) && members_added(fs0, fs, o.objects@),
                None => !(exists|o2: ObjectStream| object_stream_read(st.dict@, st.content@, Ok(o2)))
                    && objs == objs0 && fs == fs0,
            }
        } else {
            &&& os is None
            &&& fs == fs0
            &&& objs == objs0.insert(id, objs[id])
            &&& read_as(objs[id], v, pos)
            &&& zl == zl0 || (zl == zl0.push(id) && objs[id] is Stream)
        },
    }
}

/// Reading one more entry of an unencrypted file keeps what the objects
/// read so far, with the object streams among them, satisfy.
proof fn lemma_kept_step(s: Seq<u8>, table: Map<u32, XrefEntry>, entries: Seq<(&u32, &XrefEntry)>, j: int,
    objs0: Map<ObjectId, Object>, objs: Map<ObjectId, Object>, kept0: Map<u32, ObjectStream>,
    kept: Map<u32, ObjectStream>, fs0: Seq<(ObjectId, Object)>, fs: Seq<(ObjectId, Object)>, zl0: Seq<ObjectId>,
    zl: Seq<ObjectId>, os: Option<ObjectStream>)
    requires
        entries_own_numbers(s, table),
        0 <= j < entries.len(),
        forall|i: int| 0 <= i < entries.len() && i != j ==> *entries[i].0 != *entries[j].0,
        entry_step(s, table, *entries[j].0, false, objs0, objs, os, fs0, fs, zl0, zl),
        kept == match os {
            Some(o) => kept0.insert(*entries[j].0, o),
            None => kept0,
        },
        forall|x: ObjectId| #[trigger] objs0.contains_key(x) ==> exists|i: int| 0 <= i < j && *entries[i].0 == x.0,
        forall|x: ObjectId| #[trigger] objs0.contains_key(x) ==> kept_at(s, table, objs0, kept0, x),
        forall|x: ObjectId| #[trigger] zl0.contains(x) ==> (entry_read(s, table, x.0)
            matches Some((rid, v, _)) && rid == x && !is_object_stream(v)),
        forall|c: u32| #[trigger] kept0.contains_key(c) ==> (entry_read(s, table, c) matches Some((cid, v, _))
            && cid.0 == c && is_object_stream(v) && objs0.contains_key(cid)),
        forall|c: u32, id: ObjectId| #[trigger] kept0.contains_key(c)
            && #[trigger] kept0[c].objects@.contains_key(id) ==> listed(fs0, id),
        forall|i: int| 0 <= i < fs0.len() ==> #[trigger] from_kept(kept0, fs0[i]),
        forall|c: u32| #[trigger] container_placed(s, table, objs0, kept0, c)
            || exists|jj: int| j <= jj < entries.len() && *entries[jj].0 == c,
    ensures
        forall|x: ObjectId| #[trigger] objs.contains_key(x) ==> kept_at(s, table, objs, kept, x),
        forall|x: ObjectId| #[trigger] zl.contains(x) ==> (entry_read(s, table, x.0)
            matches Some((rid, v, _)) && rid == x && !is_object_stream(v)),
        forall|c: u32| #[trigger] kept.contains_key(c) ==> (entry_read(s, table, c) matches Some((cid, v, _))
            && cid.0 == c && is_object_stream(v) && objs.contains_key(cid)),
        forall|c: u32, id: ObjectId| #[trigger] kept.contains_key(c)
            && #[trigger] kept[c].objects@.contains_key(id) ==> listed(fs, id),
        forall|i: int| 0 <= i < fs.len() ==> #[trigger] from_kept(kept, fs[i]),
        forall|c: u32| #[trigger] container_placed(s, table, objs, kept, c)
            || exists|jj: int| j + 1 <= jj < entries.len() && *entries[jj].0 == c,
{
    let k = *entries[j].0;
    assert forall|x: ObjectId| objs0.contains_key(x) implies x.0 != k by {
        let i = choose|i: int| 0 <= i < j && *entries[i].0 == x.0;
    }
    assert forall|c: u32| kept0.contains_key(c) implies c != k by {
        let (cid, _, _) = entry_read(s, table, c)->0;
        assert(objs0.contains_key(cid));
    }
    assert forall|i: int| 0 <= i < fs0.len() implies fs[i] == fs0[i] by {}
    assert forall|x: ObjectId| #[trigger] zl.contains(x) implies (entry_read(s, table, x.0)
        matches Some((rid, v, _)) && rid == x && !is_object_stream(v)) by {
        if !zl0.contains(x) {
            let (id, v, pos) = entry_read(s, table, k)->0;
            assert(zl == zl0.push(id));
            assert(x == id);
            assert(id.0 == k);
        }
    }
    assert forall|x: ObjectId| listed(fs0, x) implies listed(fs, x) by {
        let i = choose|i: int| 0 <= i < fs0.len() && fs0[i].0 == x;
        assert(fs[i] == fs0[i]);
    }
    assert forall|x: ObjectId| #[trigger] objs.contains_key(x) implies kept_at(s, table, objs, kept, x) by {
        if objs0.contains_key(x) {
            assert(kept_at(s, table, objs0, kept0, x));
            assert(x.0 != k);
            if let Some((id, _, _)) = entry_read(s, table, k) {
                assert(id.0 == k);
            }
            assert(objs[x] == objs0[x]);
        }
    }
    assert forall|i: int| 0 <= i < fs.len() implies #[trigger] from_kept(kept, fs[i]) by {
        if i < fs0.len() {
            assert(from_kept(kept0, fs0[i]));
            let c = choose|c: u32| #[trigger] kept0.contains_key(c) && kept0[c].objects@.contains_key(fs0[i].0)
                && kept0[c].objects@[fs0[i].0]@ == fs0[i].1@;
            assert(kept.contains_key(c) && kept[c] == kept0[c]);
        } else {
            assert(kept.contains_key(k));
        }
    }
    assert forall|c: u32| #[trigger] container_placed(s, table, objs, kept, c)
        || exists|jj: int| j + 1 <= jj < entries.len() && *entries[jj].0 == c by {
        if c == k {
            if let Some((cid, v, pos)) = entry_read(s, table, c) {
                if is_object_stream(v) {
                    let st = choose|st: Stream| #[trigger] container_decoded(v, pos, st) && match os {
                        Some(o) => object_stream_read(st.dict@, st.content@, Ok(o))
                            && objs == objs0.insert(cid, Object::Stream(st)) && members_added(fs0, fs, o.objects@),
                        None => !(exists|o2: ObjectStream| object_stream_read(st.dict@, st.content@, Ok(o2)))
                            && objs == objs0 && fs == fs0,
                    };
                    assert(placed_as(objs, kept, c, cid, st));
                }
            }
        } else if container_placed(s, table, objs0, kept0, c) {
            if let Some((cid, v, pos)) = entry_read(s, table, c) {
                if is_object_stream(v) {
                    let st = choose|st: Stream| #[trigger] container_decoded(v, pos, st)
                        && placed_as(objs0, kept0, c, cid, st);
                    if exists|o: ObjectStream| object_stream_read(st.dict@, st.content@, Ok(o)) {
                        assert(objs0.contains_key(cid));
                        assert(cid.0 != k);
                        if let Some((id, _, _)) = entry_read(s, table, k) {
                            assert(id.0 == k);
                        }
                        assert(objs[cid] == objs0[cid]);
                        assert(kept[c] == kept0[c]);
                    }
                    assert(placed_as(objs, kept, c, cid, st));
                }
            }
        } else {
            let jj = choose|jj: int| j <= jj < entries.len() && *entries[jj].0 == c;
            assert(jj != j);
        }
    }
}

/// Whether `fs` lists an object numbered `id`.
spec fn listed(fs: Seq<(ObjectId, Object)>, id: ObjectId) -> bool {
    exists|i: int| 0 <= i < fs.len() && fs[i].0 == id
}

/// Whether the object `e` is one that a stream of `kept` holds.
spec fn from_kept(kept: Map<u32, ObjectStream>, e: (ObjectId, Object)) -> bool {
    exists|c: u32| #[trigger] kept.contains_key(c) && kept[c].objects@.contains_key(e.0) && kept[c].objects@[e.0]@ == e.1@
}

/// Whether `objects` holds `x` as the entry of its number reads it, an
/// object stream decoded into what `kept` holds for that entry.
spec fn kept_at(s: Seq<u8>, xref: Map<u32, XrefEntry>, objects: Map<ObjectId, Object>, kept: Map<u32, ObjectStream>,
    x: ObjectId) -> bool {
    &&& entry_read(s, xref, x.0) matches Some((rid, v, pos))
    &&& rid == x
    &&& if is_object_stream(v) {
        objects[x] matches Object::Stream(st) && container_decoded(v, pos, st) && kept.contains_key(x.0)
            && object_stream_read(st.dict@, st.content@, Ok(kept[x.0]))
    } else {
        read_as(objects[x], v, pos)
    }
}

/// Whether `objects` holds the stream `st` as `cid`, and `kept` what it
/// reads as for entry `c`, wherever it reads as an object stream.
spec fn placed_as(objects: Map<ObjectId, Object>, kept: Map<u32, ObjectStream>, c: u32, cid: ObjectId, st: Stream) -> bool {
    (exists|os: ObjectStream| object_stream_read(st.dict@, st.content@, Ok(os))) ==> {
        &&& objects.contains_key(cid)
        &&& objects[cid] == Object::Stream(st)
        &&& kept.contains_key(c)
        &&& object_stream_read(st.dict@, st.content@, Ok(kept[c]))
    }
}

/// Whether the object stream that entry `c` locates, where there is one,
/// is placed decoded in `objects`, wherever it reads as an object stream.
spec fn container_placed(s: Seq<u8>, xref: Map<u32, XrefEntry>, objects: Map<ObjectId, Object>,
    kept: Map<u32, ObjectStream>, c: u32) -> bool {
    match entry_read(s, xref, c) {
        Some((cid, v, pos)) => is_object_stream(v) ==> exists|st: Stream|
            #[trigger] container_decoded(v, pos, st) && placed_as(objects, kept, c, cid, st),
        None => true,
    }
}

/// The entries that an iteration over the table visits carry distinct
/// numbers.
proof fn lemma_keys_apart(table: Map<u32, XrefEntry>, entries: Seq<(&u32, &XrefEntry)>, j: int)
    requires
        0 <= j < entries.len(),
        entries.no_duplicates(),
        forall|i: int| #![trigger entries[i]] 0 <= i < entries.len() ==> table.contains_key(*entries[i].0)
            && table[*entries[i].0] == *entries[i].1,
    ensures
        forall|i: int| 0 <= i < entries.len() && i != j ==> *entries[i].0 != *entries[j].0,
{
    assert forall|i: int| 0 <= i < entries.len() && i != j implies *entries[i].0 != *entries[j].0 by {
        if *entries[i].0 == *entries[j].0 {
            assert(table.contains_key(*entries[i].0) && table[*entries[i].0] == *entries[i].1);
            assert(table.contains_key(*entries[j].0) && table[*entries[j].0] == *entries[j].1);
            assert(entries[i] == entries[j]);
        }
    }
}

/// What loading the objects of an unencrypted file keeps, from what each
/// of its three passes keeps: the objects that the entries read, with the
/// object streams decoded; the objects of those streams, where no object
/// has their number yet; the data of empty streams read again.
proof fn lemma_objects_loaded(s: Seq<u8>, table: Map<u32, XrefEntry>, objs1: Map<ObjectId, Object>,
    objs2: Map<ObjectId, Object>, fin: Map<ObjectId, Object>, kept: Map<u32, ObjectStream>,
    fs: Seq<(ObjectId, Object)>, zl: Seq<ObjectId>)
    requires
        entries_own_numbers(s, table),
        forall|x: ObjectId| #[trigger] objs1.contains_key(x) ==> kept_at(s, table, objs1, kept, x),
        forall|x: ObjectId| #[trigger] zl.contains(x) ==> objs1.contains_key(x) && (entry_read(s, table, x.0)
            matches Some((rid, v, _)) && rid == x && !is_object_stream(v)),
        forall|c: u32| #[trigger] kept.contains_key(c) ==> (entry_read(s, table, c) matches Some((cid, v, _))
            && cid.0 == c && is_object_stream(v) && objs1.contains_key(cid)),
        forall|c: u32, id: ObjectId| #[trigger] kept.contains_key(c) && #[trigger] kept[c].objects@.contains_key(id)
            ==> listed(fs, id),
        forall|i: int| 0 <= i < fs.len() ==> #[trigger] from_kept(kept, fs[i]),
        forall|c: u32| #[trigger] container_placed(s, table, objs1, kept, c),
        forall|x: ObjectId| #[trigger] objs1.contains_key(x) ==> objs2.contains_key(x) && objs2[x] == objs1[x],
        forall|x: ObjectId| #[trigger] objs2.contains_key(x) ==> objs1.contains_key(x)
            || exists|ii: int| 0 <= ii < fs.len() && fs[ii].0 == x && objs2[x]@ == fs[ii].1@,
        forall|ii: int| 0 <= ii < fs.len() ==> objs2.contains_key(#[trigger] fs[ii].0),
        fin.dom() == objs2.dom(),
        forall|x: ObjectId| !zl.contains(x) ==> #[trigger] unchanged_at(objs2, fin, x),
        forall|k: u32| #[trigger] plain_entry_object(s, table, k) matches Some(id)
            ==> (entry_read(s, table, k) matches Some((_, v, pos)) && loaded_as(fin[id], v, pos, s)),
    ensures
        forall|id: ObjectId| #[trigger] fin.contains_key(id) ==> entry_object(s, table, fin, id)
            || stream_member(s, table, fin, id),
        forall|c: u32| #[trigger] stream_kept(s, table, fin, c),
{
    assert forall|id: ObjectId| #[trigger] fin.contains_key(id) implies entry_object(s, table, fin, id)
        || stream_member(s, table, fin, id) by {
        assert(objs2.contains_key(id));
        if objs1.contains_key(id) {
            assert(kept_at(s, table, objs1, kept, id));
            let (rid, v, pos) = entry_read(s, table, id.0)->0;
            if is_object_stream(v) {
                if zl.contains(id) {
                    assert(false);
                }
                assert(unchanged_at(objs2, fin, id));
            } else {
                assert(plain_entry_object(s, table, id.0) == Some(id));
            }
        } else {
            let ii = choose|ii: int| 0 <= ii < fs.len() && fs[ii].0 == id && objs2[id]@ == fs[ii].1@;
            assert(from_kept(kept, fs[ii]));
            let c = choose|c: u32| #[trigger] kept.contains_key(c) && kept[c].objects@.contains_key(fs[ii].0)
                && kept[c].objects@[fs[ii].0]@ == fs[ii].1@;
            let (cid, v, pos) = entry_read(s, table, c)->0;
            assert(kept_at(s, table, objs1, kept, cid));
            if zl.contains(cid) {
                assert(false);
            }
            assert(unchanged_at(objs2, fin, cid));
            assert(!zl.contains(id));
            assert(unchanged_at(objs2, fin, id));
            assert(stream_at_entry(s, table, fin, c, kept[c]));
        }
    }
    assert forall|c: u32| #[trigger] stream_kept(s, table, fin, c) by {
        assert(container_placed(s, table, objs1, kept, c));
        if let Some((cid, v, pos)) = entry_read(s, table, c) {
          if is_object_stream(v) {
            let st = choose|st: Stream| #[trigger] container_decoded(v, pos, st) && placed_as(objs1, kept, c, cid, st);
            if exists|os: ObjectStream| object_stream_read(st.dict@, st.content@, Ok(os)) {
                if zl.contains(cid) {
                    assert(false);
                }
                assert(unchanged_at(objs2, fin, cid));
                assert forall|os: ObjectStream, id: ObjectId| object_stream_read(st.dict@, st.content@, Ok(os))
                    && #[trigger] os.objects@.contains_key(id) implies fin.contains_key(id) by {
                    lemma_object_stream_read_unique(st.dict@, st.content@, Ok(os), Ok(kept[c]));
                    assert(kept[c].objects@.contains_key(id));
                    assert(listed(fs, id));
                    let ii = choose|ii: int| 0 <= ii < fs.len() && fs[ii].0 == id;
                    assert(objs2.contains_key(fs[ii].0));
                }
            }
          }
        }
    }
}


/// `entries` with the entry for `XRefStm` taken out `n` times.
pub open spec fn without_xref_stm(entries: Seq<(Seq<u8>, Object)>, n: nat) -> Seq<(Seq<u8>, Object)>
    decreases n,
{
    if n == 0 {
        entries
    } else {
        entries_remove(without_xref_stm(entries, (n - 1) as nat), xref_stm_bytes())
    }
}

/// What a document read from the file `s` (from its header on) keeps: the
/// version `v` of the header, the start `start` of the cross-reference data
/// and, of the table `x` and trailer `t` read there, every entry and the
/// entries of the trailer but /Prev and /XRefStm; its highest object number
/// is that of its table, whose size is one more. Where the trailer names no
/// /Encrypt, every object that an entry of the table locates, and that is no
/// object stream, has been read; and where each entry's object carries the
/// number of the entry, every object held is one that its entry reads (an
/// object stream decoded) or one that a kept object stream holds, and each
/// object stream is kept, decoded and with all its objects, wherever it
/// reads as one.
pub open spec fn read_document(s: Seq<u8>, v: Seq<char>, start: usize, x: Xref, t: Dictionary, doc: Document) -> bool {
    &&& doc.version@ == v
    &&& doc.xref_start == start
    &&& forall|k: u32| #[trigger] x.entries@.contains_key(k) ==> doc.reference_table.entries@.contains_key(k)
        && doc.reference_table.entries@[k] == x.entries@[k]
    &&& forall|k: u32| #[trigger] doc.reference_table.entries@.contains_key(k) ==> k <= doc.max_id
    &&& doc.reference_table.size == doc.max_id + 1
    &&& doc.reference_table.cross_reference_type == x.cross_reference_type
    &&& exists|n: nat| doc.trailer@ == without_xref_stm(entries_remove(t@, prev_bytes()), n)
    &&& entries_get(doc.trailer@, encrypt_bytes()) is None ==> forall|k: u32| #[trigger] plain_entry_object(s,
        doc.reference_table.entries@, k) matches Some(id) ==> doc.objects@.contains_key(id)
    &&& entries_get(doc.trailer@, encrypt_bytes()) is None && entries_own_numbers(s, doc.reference_table.entries@)
        ==> forall|k: u32| #[trigger] plain_entry_object(s, doc.reference_table.entries@, k) matches Some(id)
        ==> (entry_read(s, doc.reference_table.entries@, k) matches Some((_, v, pos))
        && loaded_as(doc.objects@[id], v, pos, s))
    &&& entries_get(doc.trailer@, encrypt_bytes()) is None && entries_own_numbers(s, doc.reference_table.entries@)
        ==> forall|id: ObjectId| #[trigger] doc.objects@.contains_key(id)
        ==> entry_object(s, doc.reference_table.entries@, doc.objects@, id)
        || stream_member(s, doc.reference_table.entries@, doc.objects@, id)
    &&& entries_get(doc.trailer@, encrypt_bytes()) is None && entries_own_numbers(s, doc.reference_table.entries@)
        ==> forall|c: u32| #[trigger] stream_kept(s, doc.reference_table.entries@, doc.objects@, c)
}

/// What reading a document gives once its first cross-reference section
/// `x`, with trailer `t`, has been read: where the /Prev of `t` is an offset
/// outside the file, or the section there cannot be read before a stream is
/// decoded, that error; where there is no /Prev to follow, or the /Prev
/// chain leads through cross-reference tables only (with no /XRefStm in
/// `t`), the document, unless its highest object number leaves no room for
/// the table's size.
pub open spec fn read_after_first(s: Seq<u8>, table: Map<u32, XrefEntry>, x: Xref, t: Dictionary, r: Result<Document, Error>) -> bool {
    let prev = entries_get(t@, prev_bytes());
    &&& match prev {
        Some(Object::Integer(v)) => if v < 0 || v > s.len() {
            r == Err::<Document, Error>(Error::Xref(XrefError::PrevStart))
        } else {
            section_error(s, table, v as int) matches Some(e) ==> r == Err::<Document, Error>(e)
        },
        _ => if x.entries@.contains_key(u32::MAX) {
            r == Err::<Document, Error>(Error::Parse(ParseError::InvalidXref))
        } else {
            r is Ok
        },
    }
    &&& lone_section(s, prev, entries_remove(t@, prev_bytes())) matches Some(m) ==> if m.union_prefer_right(
        x.entries@).contains_key(u32::MAX) {
        r == Err::<Document, Error>(Error::Parse(ParseError::InvalidXref))
    } else {
        r is Ok
    }
    &&& entries_get(entries_remove(t@, prev_bytes()), xref_stm_bytes()) is None ==> (table_chain(s, value_of(prev),
        Seq::empty(), x.entries@, (s.len() + 2) as nat) matches Some(m) ==> if m.contains_key(u32::MAX) {
        r == Err::<Document, Error>(Error::Parse(ParseError::InvalidXref))
    } else {
        r is Ok
    })
}

/// What reading the file `s` (from its header on) gives, with `table` the
/// table known before: an error for a missing header or a start of the
/// cross-reference data that the end of the file does not give or that lies
/// past its end; the error of reading the cross-reference data there; and
/// otherwise, on success, a document that keeps what `read_document` says.
pub open spec fn read_outcome(s: Seq<u8>, table: Map<u32, XrefEntry>, r: Result<Document, Error>) -> bool {
    match header_version(s) {
        None => r == Err::<Document, Error>(Error::Parse(ParseError::InvalidFileHeader)),
        Some(v) => match spec_xref_start_of(s) {
            Err(e) => r == Err::<Document, Error>(e),
            Ok(start) => if start > s.len() {
                r == Err::<Document, Error>(Error::Xref(XrefError::Start))
            } else {
                exists|first: Result<(Xref, Dictionary), Error>| #[trigger] xref_and_trailer_result(s, table,
                    start as int, first) && match first {
                    Err(e) => r == Err::<Document, Error>(e),
                    Ok((x, t)) => {
                        &&& r matches Ok(doc) ==> read_document(s, v, start, x, t, doc)
                        &&& read_after_first(s, table, x, t, r)
                    },
                }
            },
        },
    }
}

fn contains_offset(v: &Vec<i64>, x: i64) -> (r: bool)
    ensures
        r == v@.contains(x),
{
    let mut i: usize = 0;
    while i < v.len()
        invariant
            i <= v@.len(),
            forall|j: int| 0 <= j < i ==> v@[j] != x,
        decreases v@.len() - i,
    {
        if v[i] == x {
            return true;
        }
        i = i + 1;
    }
    false
}

/// Adding an offset not seen before to the offsets seen keeps the set of
/// their values as large as their list, within `0..=len`.
proof fn lemma_seen_offsets(seen: Seq<i64>, set: Set<int>, prev: i64, len: int) -> (out: Set<int>)
    requires
        !seen.contains(prev),
        0 <= prev <= len,
        set.finite(),
        set.len() == seen.len(),
        set.subset_of(vstd::set_lib::set_int_range(0, len + 1)),
        forall|i: int| 0 <= i < seen.len() ==> #[trigger] set.contains(seen[i] as int),
        forall|x: int| #[trigger] set.contains(x) ==> seen.contains(x as i64),
    ensures
        out.finite(),
        out.len() == seen.push(prev).len(),
        out.len() <= len + 1,
        out.subset_of(vstd::set_lib::set_int_range(0, len + 1)),
        forall|i: int| 0 <= i < seen.push(prev).len() ==> #[trigger] out.contains(seen.push(prev)[i] as int),
        forall|x: int| #[trigger] out.contains(x) ==> seen.push(prev).contains(x as i64),
{
    if set.contains(prev as int) {
        assert(seen.contains((prev as int) as i64));
    }
    let out = set.insert(prev as int);
    let pushed = seen.push(prev);
    assert forall|x: int| #[trigger] out.contains(x) implies pushed.contains(x as i64) by {
        if x == prev as int {
            assert(pushed[pushed.len() - 1] == prev);
        } else {
            let j = choose|j: int| 0 <= j < seen.len() && seen[j] == x as i64;
            assert(pushed[j] == x as i64);
        }
    }
    assert forall|i: int| 0 <= i < pushed.len() implies #[trigger] out.contains(pushed[i] as int) by {
        if i < seen.len() {
            assert(pushed[i] == seen[i]);
        }
    }
    vstd::set_lib::lemma_int_range(0, len + 1);
    vstd::set_lib::lemma_len_subset(out, vstd::set_lib::set_int_range(0, len + 1));
    out
}

impl<'a> Reader<'a> {
    /// The cross-reference data at `p`.
    fn xref_at(&self, p: usize) -> (r: Result<(Xref, Dictionary), Error>)
        requires
            p <= self.buffer@.len(),
        ensures
            xref_and_trailer_result(self.buffer@, self.table(), p as int, r),
    {
        self.xref_and_trailer(p)
    }

    /// Follows /Prev from `prev_start` through the cross-reference data of
    /// earlier revisions, each offset once, merging each table into `xref`
    /// without replacing its entries, and with it the cross-reference stream
    /// that /XRefStm of `trailer` points to, which is then taken out of it.
    fn merge_previous(&self, xref: &mut Xref, trailer: &mut Dictionary, prev_start: Option<Object>) -> (r: Result<(), Error>)
        ensures
            r is Ok ==> forall|k: u32| #[trigger] old(xref).entries@.contains_key(k) ==> final(xref).entries@.contains_key(k)
                && final(xref).entries@[k] == old(xref).entries@[k],
            r is Ok ==> final(xref).cross_reference_type == old(xref).cross_reference_type,
            r is Ok ==> exists|n: nat| final(trailer)@ == without_xref_stm(old(trailer)@, n),
            first_section_outcome(self.buffer@, self.table(), prev_start, r),
            !(prev_start matches Some(Object::Integer(_))) ==> *final(xref) == *old(xref) && *final(trailer) == *old(trailer),
            lone_section(self.buffer@, prev_start, old(trailer)@) matches Some(m) ==> {
                &&& r is Ok
                &&& final(xref).entries@ == m.union_prefer_right(old(xref).entries@)
                &&& final(trailer)@ == entries_remove(old(trailer)@, xref_stm_bytes())
            },
            entries_get(old(trailer)@, xref_stm_bytes()) is None ==> (table_chain(self.buffer@, value_of(prev_start),
                Seq::empty(), old(xref).entries@, (self.buffer@.len() + 2) as nat) matches Some(m)
                ==> r is Ok && final(xref).entries@ == m),
    {
        let ghost start = prev_start;
        let ghost mut first = true;
        let mut next_start = prev_start;
        let len = self.buffer.len();
        let mut seen: Vec<i64> = Vec::new();
        let ghost mut seen_set: Set<int> = Set::empty();
        let ghost mut n: nat = 0;
        proof {
            vstd::set_lib::lemma_int_range(0, len + 1);
        }
        loop
            invariant
                len == self.buffer@.len(),
                forall|k: u32| #[trigger] old(xref).entries@.contains_key(k) ==> xref.entries@.contains_key(k)
                    && xref.entries@[k] == old(xref).entries@[k],
                xref.cross_reference_type == old(xref).cross_reference_type,
                trailer@ == without_xref_stm(old(trailer)@, n),
                seen_set.finite(),
                seen_set.len() == seen@.len(),
                seen_set.subset_of(vstd::set_lib::set_int_range(0, len + 1)),
                forall|i: int| 0 <= i < seen@.len() ==> #[trigger] seen_set.contains(seen@[i] as int),
                forall|x: int| #[trigger] seen_set.contains(x) ==> seen@.contains(x as i64),
                vstd::set_lib::set_int_range(0, len + 1).finite(),
                vstd::set_lib::set_int_range(0, len + 1).len() == len + 1,
                start == prev_start,
                first ==> next_start == start && *xref == *old(xref) && *trailer == *old(trailer) && seen@.len() == 0,
                !first ==> (start matches Some(Object::Integer(v)) && 0 <= v <= len
                    && section_error(self.buffer@, self.table(), v as int) is None),
                !first && lone_section(self.buffer@, start, old(trailer)@) is Some ==> {
                    &&& next_start is None
                    &&& xref.entries@ == lone_section(self.buffer@, start, old(trailer)@)->0.union_prefer_right(old(xref).entries@)
                    &&& trailer@ == entries_remove(old(trailer)@, xref_stm_bytes())
                },
                entries_get(old(trailer)@, xref_stm_bytes()) is None ==> trailer@ == old(trailer)@,
                entries_get(old(trailer)@, xref_stm_bytes()) is None ==> (table_chain(self.buffer@, value_of(start),
                    Seq::empty(), old(xref).entries@, (len + 2) as nat) matches Some(m)
                    ==> table_chain(self.buffer@, value_of(next_start), seen@, xref.entries@, (len + 2 - seen@.len()) as nat) == Some(m)),
            ensures
                entries_get(old(trailer)@, xref_stm_bytes()) is None ==> (table_chain(self.buffer@, value_of(start),
                    Seq::empty(), old(xref).entries@, (len + 2) as nat) matches Some(m) ==> xref.entries@ == m),
                first ==> !(start matches Some(Object::Integer(_))),
                !first && lone_section(self.buffer@, start, old(trailer)@) is Some ==> {
                    &&& xref.entries@ == lone_section(self.buffer@, start, old(trailer)@)->0.union_prefer_right(old(xref).entries@)
                    &&& trailer@ == entries_remove(old(trailer)@, xref_stm_bytes())
                },
            decreases len + 1 - seen@.len(),
        {
            proof {
                vstd::set_lib::lemma_len_subset(seen_set, vstd::set_lib::set_int_range(0, len + 1));
            }
            let prev = match &next_start {
                Some(o) => match o.as_i64() {
                    Ok(p) => p,
                    Err(_) => {
                        break;
                    },
                },
                None => {
                    break;
                },
            };
            if contains_offset(&seen, prev) {
                break;
            }
            if prev < 0 || prev as u64 > len as u64 {
                return Err(Error::Xref(XrefError::PrevStart));
            }
            let ghost old_seen = seen@;
            seen.push(prev);
            proof {
                seen_set = lemma_seen_offsets(old_seen, seen_set, prev, len as int);
            }
            let (prev_xref, prev_trailer) = match self.xref_at(prev as usize) {
                Ok(x) => x,
                Err(e) => {
                    proof {
                        reveal(section_error);
                    }
                    return Err(e);
                },
            };
            proof {
                reveal(section_error);
                crate::object::lemma_entries_get_values(dict_pairs(prev_trailer), prev_bytes());
                match spec_table_and_trailer(self.buffer@, prev as int) {
                    Some(Ok((_, _, entries))) => {
                        assert(pairs_values(dict_pairs(prev_trailer)) =~= entries);
                    },
                    _ => {},
                }
                first = false;
            }
            xref.merge(prev_xref);
            let stm = trailer.remove(xref_stm_key().as_slice());
            proof {
                n = n + 1;
            }
            match stm {
                Some(o) => match o.as_i64() {
                    Ok(p) => {
                        if p < 0 || p as u64 > len as u64 {
                            return Err(Error::Xref(XrefError::StreamStart));
                        }
                        let (stream_xref, _) = self.xref_at(p as usize)?;
                        xref.merge(stream_xref);
                    },
                    Err(_) => {},
                },
                None => {},
            }
            next_start = match prev_trailer.get(prev_key().as_slice()) {
                Ok(o) => Some(clone_object(o)),
                Err(_) => None,
            };
        }
        assert(trailer@ == without_xref_stm(old(trailer)@, n));
        Ok(())
    }
}

impl<'a> Reader<'a> {
    /// Reads the document: its header, the cross-reference data that the end
    /// of the file points to and the earlier data that each /Prev points to,
    /// then its objects.
    #[verifier::rlimit(100)]
    #[verifier::spinoff_prover]
    pub fn read(self) -> (r: Result<Document, Error>)
        ensures
            read_outcome(pdf_part(self.buffer@), self.table(), r),
            self.raw_objects@ == Map::<ObjectId, Vec<u8>>::empty() && self.document.encryption_state is None ==> (
                r matches Ok(doc) ==> (doc.encryption_state is Some
                && raw_entries_own_numbers(pdf_part(self.buffer@), doc.reference_table.entries@)
                && raw_entries_parse_own(pdf_part(self.buffer@), doc.reference_table.entries@)
                ==> objects_decrypted(doc, pdf_part(self.buffer@), doc.encryption_state->0))),
            self.raw_objects@ == Map::<ObjectId, Vec<u8>>::empty() && self.document.encryption_state is None ==> (
                r matches Ok(doc) ==> {
                    &&& entries_get(doc.trailer@, encrypt_bytes()) is None ==> doc.encryption_state is None
                    &&& entries_get(doc.trailer@, encrypt_bytes()) is Some
                        && raw_entries_own_numbers(pdf_part(self.buffer@), doc.reference_table.entries@)
                        ==> exists|mid: Document| #[trigger] dict_read_from_file(self.document.objects@, mid.objects@,
                        doc.trailer@, pdf_part(self.buffer@), doc.reference_table.entries@) && mid.trailer == doc.trailer
                        && (doc.encryption_state is Some <==> opens_without_password(mid))
                }),
    {
        let ghost table0 = self.table();
        let mut this = self;
        let ghost buf0 = this.buffer@;
        let offset = header_offset(this.buffer);
        let len0 = this.buffer.len();
        this.buffer = vstd::slice::slice_subrange(this.buffer, offset, len0);
        let ghost s = this.buffer@;
        assert(s =~= pdf_part(buf0));
        let version = match crate::file_structure::header(this.buffer) {
            Some(v) => v,
            None => {
                return Err(Error::Parse(ParseError::InvalidFileHeader));
            },
        };
        let xref_start = Self::get_xref_start(this.buffer)?;
        if xref_start > this.buffer.len() {
            return Err(Error::Xref(XrefError::Start));
        }
        this.document.xref_start = xref_start;
        let first = this.xref_and_trailer(xref_start);
        let ghost first_g = first;
        let (mut xref, mut trailer) = match first {
            Ok(p) => p,
            Err(e) => {
                return Err(e);
            },
        };
        let ghost x0 = xref;
        let ghost t0 = trailer;
        assert(xref_and_trailer_result(s, table0, xref_start as int, first_g));
        let prev_start: Option<Object> = trailer.remove(prev_key().as_slice());
        let ghost t1 = trailer;
        match this.merge_previous(&mut xref, &mut trailer, prev_start) {
            Ok(()) => {},
            Err(e) => {
                return Err(e);
            },
        }
        let highest = xref.max_id();
        let count = match highest.checked_add(1) {
            Some(c) => c,
            None => {
                return Err(Error::Parse(ParseError::InvalidXref));
            },
        };
        if xref.size != count {
            xref.size = count;
        }
        this.document.version = version;
        this.document.max_id = xref.size - 1;
        this.document.trailer = trailer;
        this.document.reference_table = xref;
        proof {
            crate::object::lemma_entries_get_values(dict_pairs(this.document.trailer), encrypt_bytes());
        }
        this.load_all_objects();
        Ok(this.document)
    }

    /// Reads the objects that the table locates: decrypted where the trailer
    /// names an encryption dictionary, as they are otherwise.
    fn load_all_objects(&mut self)
        ensures
            final(self).same_frame(old(self)),
            entries_get(old(self).document.trailer@, encrypt_bytes()) is None ==> {
                &&& final(self).document.encryption_state == old(self).document.encryption_state
                &&& forall|k: u32| #[trigger] plain_entry_object(old(self).buffer@, old(self).table(), k) matches Some(id)
                    ==> final(self).document.objects@.contains_key(id)
                &&& entries_own_numbers(old(self).buffer@, old(self).table()) ==> forall|k: u32|
                    #[trigger] plain_entry_object(old(self).buffer@, old(self).table(), k) matches Some(id)
                    ==> (entry_read(old(self).buffer@, old(self).table(), k) matches Some((_, v, pos))
                    && loaded_as(final(self).document.objects@[id], v, pos, old(self).buffer@))
                &&& entries_own_numbers(old(self).buffer@, old(self).table()) ==> forall|id: ObjectId|
                    #[trigger] final(self).document.objects@.contains_key(id)
                    ==> entry_object(old(self).buffer@, old(self).table(), final(self).document.objects@, id)
                    || stream_member(old(self).buffer@, old(self).table(), final(self).document.objects@, id)
                &&& entries_own_numbers(old(self).buffer@, old(self).table()) ==> forall|c: u32|
                    #[trigger] stream_kept(old(self).buffer@, old(self).table(), final(self).document.objects@, c)
            },
            old(self).document.encryption_state is None && final(self).document.encryption_state is Some
                && old(self).raw_objects@ == Map::<ObjectId, Vec<u8>>::empty()
                && raw_entries_own_numbers(old(self).buffer@, old(self).table())
                && raw_entries_parse_own(old(self).buffer@, old(self).table())
                ==> objects_decrypted(final(self).document, old(self).buffer@, final(self).document.encryption_state->0),
            entries_get(old(self).document.trailer@, encrypt_bytes()) is Some && old(self).document.encryption_state is None
                && old(self).raw_objects@ == Map::<ObjectId, Vec<u8>>::empty()
                && raw_entries_own_numbers(old(self).buffer@, old(self).table()) ==> exists|mid: Document|
                #[trigger] dict_read_from_file(old(self).document.objects@, mid.objects@, old(self).document.trailer@,
                old(self).buffer@, old(self).table()) && mid.trailer == old(self).document.trailer
                && (final(self).document.encryption_state is Some <==> opens_without_password(mid)),
    {
        proof {
            crate::object::lemma_entries_get_values(dict_pairs(self.document.trailer), encrypt_bytes());
        }
        let is_encrypted = self.document.trailer.get(encrypt_key().as_slice()).is_ok();
        if is_encrypted {
            let _ = self.load_encrypted_document();
        } else {
            self.load_objects_raw();
        }
    }
}

impl Document {
    /// Reads a document from the bytes of a PDF file.
    pub fn load_mem(buffer: &[u8]) -> (r: Result<Document, Error>)
        ensures
            read_outcome(pdf_part(buffer@), Map::empty(), r),
            r matches Ok(doc) ==> (doc.encryption_state is Some
                && raw_entries_own_numbers(pdf_part(buffer@), doc.reference_table.entries@)
                && raw_entries_parse_own(pdf_part(buffer@), doc.reference_table.entries@)
                ==> objects_decrypted(doc, pdf_part(buffer@), doc.encryption_state->0)),
            r matches Ok(doc) ==> {
                &&& entries_get(doc.trailer@, encrypt_bytes()) is None ==> doc.encryption_state is None
                &&& entries_get(doc.trailer@, encrypt_bytes()) is Some
                    && raw_entries_own_numbers(pdf_part(buffer@), doc.reference_table.entries@)
                    ==> exists|mid: Document| #[trigger] dict_read_from_file(Map::empty(), mid.objects@,
                    doc.trailer@, pdf_part(buffer@), doc.reference_table.entries@) && mid.trailer == doc.trailer
                    && (doc.encryption_state is Some <==> opens_without_password(mid))
            },
    {
        let reader = Reader { buffer, document: Document::new(), encryption_state: None, raw_objects: BTreeMap::new() };
        reader.read()
    }
}

} // verus!

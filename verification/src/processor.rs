//! Whole-document processing: walking the objects reachable from the
//! trailer, and what is built on it (pruning, deleting and renumbering
//! objects), and changes to streams and page contents.

use std::collections::BTreeMap;
use vstd::prelude::*;
use crate::document::{Document, object_of};
use crate::error::Error;
use crate::object::{Object, ObjectId, PdfValue, Dictionary, Stream, StringFormat, dict_pairs, pairs_values, values_of,
    clone_object, copy_bytes, lemma_array_value, lemma_dictionary_value, lemma_stream_value, lemma_dictionary_decreases,
    entries_get, entries_set, entries_remove};
use crate::decode::{zlib_compressed, stream_decodable, decompressed_as};
use crate::names::{filter_bytes, flate_decode_bytes, length_bytes, decode_parms_bytes, info_bytes, info_key,
    producer_bytes, producer_key};
use vstd::utf8::encode_utf8 as utf8_bytes;

verus! {

broadcast use vstd::std_specs::btree::group_btree_axioms;

/// What a walk over the objects does to each object it reaches, before it
/// looks inside.
pub enum TraverseAction {
    /// Leaves the objects as they are.
    Nothing,
    /// Takes out of an array its first reference to the object, and out of
    /// a dictionary every entry that refers to it.
    DeleteReferencesTo(ObjectId),
    /// Changes each reference to an object that the map holds into a
    /// reference to the object it maps to.
    Renumber(BTreeMap<ObjectId, ObjectId>),
}

/// What the action makes of a reference to object (`n`, `g`).
pub open spec fn renamed(a: TraverseAction, n: u32, g: u16) -> PdfValue {
    match a {
        TraverseAction::Renumber(m) => if m@.contains_key((n, g)) {
            PdfValue::Reference(m@[(n, g)].0, m@[(n, g)].1)
        } else {
            PdfValue::Reference(n, g)
        },
        _ => PdfValue::Reference(n, g),
    }
}

/// The index of the first reference to `id` among `items`, or -1.
pub open spec fn first_ref_index(items: Seq<PdfValue>, id: ObjectId) -> int
    decreases items.len(),
{
    if items.len() == 0 {
        -1
    } else if first_ref_index(items.drop_last(), id) >= 0 {
        first_ref_index(items.drop_last(), id)
    } else if items.last() == PdfValue::Reference(id.0, id.1) {
        items.len() - 1
    } else {
        -1
    }
}

/// The value after the walk: the action applied to it and then to every
/// value inside it that remains.
pub open spec fn walked(a: TraverseAction, v: PdfValue) -> PdfValue
    decreases v,
{
    match v {
        PdfValue::Reference(n, g) => renamed(a, n, g),
        PdfValue::Array(items) => PdfValue::Array(walked_items(a, items, match a {
            TraverseAction::DeleteReferencesTo(id) => first_ref_index(items, id),
            _ => -1,
        })),
        PdfValue::Dictionary(entries) => PdfValue::Dictionary(walked_entries(a, entries, match a {
            TraverseAction::DeleteReferencesTo(id) => Some(id),
            _ => None,
        })),
        PdfValue::Stream(entries, content) => PdfValue::Stream(walked_entries(a, entries, None), content),
        _ => v,
    }
}

/// The items after the walk, the one at `skip` taken out.
pub open spec fn walked_items(a: TraverseAction, items: Seq<PdfValue>, skip: int) -> Seq<PdfValue>
    decreases items,
{
    if items.len() == 0 {
        Seq::empty()
    } else {
        proof {
            assert(decreases_to!(items => items[items.len() - 1]));
        }
        walked_items(a, items.drop_last(), skip) + if items.len() - 1 == skip {
            Seq::empty()
        } else {
            seq![walked(a, items.last())]
        }
    }
}

/// The entries after the walk, those that refer to `dropped` taken out.
pub open spec fn walked_entries(a: TraverseAction, entries: Seq<(Seq<u8>, PdfValue)>, dropped: Option<ObjectId>)
    -> Seq<(Seq<u8>, PdfValue)>
    decreases entries,
{
    if entries.len() == 0 {
        Seq::empty()
    } else {
        proof {
            assert(decreases_to!(entries => entries[entries.len() - 1]));
        }
        walked_entries(a, entries.drop_last(), dropped) + if dropped matches Some(id) && entries.last().1
            == PdfValue::Reference(id.0, id.1) {
            Seq::empty()
        } else {
            seq![(entries.last().0, walked(a, entries.last().1))]
        }
    }
}

/// The objects that references anywhere inside `v` refer to.
pub open spec fn value_refs(v: PdfValue) -> Set<ObjectId>
    decreases v,
{
    match v {
        PdfValue::Reference(n, g) => set![(n, g)],
        PdfValue::Array(items) => items_refs(items),
        PdfValue::Dictionary(entries) => entries_refs(entries),
        PdfValue::Stream(entries, _) => entries_refs(entries),
        _ => Set::empty(),
    }
}

/// The objects that references anywhere inside `items` refer to.
pub open spec fn items_refs(items: Seq<PdfValue>) -> Set<ObjectId>
    decreases items,
{
    if items.len() == 0 {
        Set::empty()
    } else {
        proof {
            assert(decreases_to!(items => items[items.len() - 1]));
        }
        items_refs(items.drop_last()) + value_refs(items.last())
    }
}

/// The objects that references anywhere inside the values of `entries`
/// refer to.
pub open spec fn entries_refs(entries: Seq<(Seq<u8>, PdfValue)>) -> Set<ObjectId>
    decreases entries,
{
    if entries.len() == 0 {
        Set::empty()
    } else {
        proof {
            assert(decreases_to!(entries => entries[entries.len() - 1]));
        }
        entries_refs(entries.drop_last()) + value_refs(entries.last().1)
    }
}

fn contains_id(v: &Vec<ObjectId>, id: ObjectId) -> (r: bool)
    ensures
        r == v@.contains(id),
{
    let mut i: usize = 0;
    while i < v.len()
        invariant
            i <= v@.len(),
            forall|j: int| 0 <= j < i ==> v@[j] != id,
        decreases v@.len() - i,
    {
        if v[i].0 == id.0 && v[i].1 == id.1 {
            return true;
        }
        i = i + 1;
    }
    false
}

/// Records `id` among `refs` unless it is there.
fn note_ref(refs: &mut Vec<ObjectId>, id: ObjectId)
    requires
        old(refs)@.no_duplicates(),
    ensures
        final(refs)@.no_duplicates(),
        final(refs)@.to_set() == old(refs)@.to_set().insert(id),
        old(refs)@.len() <= final(refs)@.len(),
        final(refs)@.subrange(0, old(refs)@.len() as int) == old(refs)@,
{
    let ghost before = refs@;
    if !contains_id(refs, id) {
        refs.push(id);
        assert(refs@.subrange(0, refs@.len() - 1) =~= before);
        assert forall|x: ObjectId| #[trigger] refs@.contains(x) <==> (before.contains(x) || x == id) by {
            if x == id {
                assert(refs@[refs@.len() - 1] == id);
            }
            if before.contains(x) {
                let j = choose|j: int| 0 <= j < before.len() && before[j] == x;
                assert(refs@[j] == x);
            }
            if refs@.contains(x) && x != id {
                let j = choose|j: int| 0 <= j < refs@.len() && refs@[j] == x;
                assert(j < before.len());
                assert(before[j] == x);
            }
        }
        assert forall|i: int, j: int| 0 <= i < j < refs@.len() implies refs@[i] != refs@[j] by {
            if j == refs@.len() - 1 {
                assert(before[i] == refs@[i]);
            } else {
                assert(before[i] == refs@[i] && before[j] == refs@[j]);
            }
        }
    } else {
        assert(refs@.subrange(0, refs@.len() as int) =~= refs@);
    }
    assert(refs@.to_set() =~= before.to_set().insert(id));
}

impl TraverseAction {
    /// The target of a reference under the action.
    fn rename(&self, id: ObjectId) -> (r: ObjectId)
        ensures
            PdfValue::Reference(r.0, r.1) == renamed(*self, id.0, id.1),
    {
        match self {
            TraverseAction::Renumber(m) => match m.get(&id) {
                Some(t) => *t,
                None => id,
            },
            _ => id,
        }
    }
}

#[verifier::loop_isolation(false)]
/// The walk of one object: the action applied to it and to what remains
/// inside it, and each reference met recorded in `refs` once.
pub fn walk_object(o: &Object, a: &TraverseAction, refs: &mut Vec<ObjectId>) -> (r: Object)
    requires
        old(refs)@.no_duplicates(),
    ensures
        r@ == walked(*a, o@),
        final(refs)@.no_duplicates(),
        final(refs)@.to_set() == old(refs)@.to_set() + value_refs(r@),
        old(refs)@.len() <= final(refs)@.len(),
        final(refs)@.subrange(0, old(refs)@.len() as int) == old(refs)@,
    decreases o, 1nat,
{
    match o {
        Object::Reference(id) => {
            let t = a.rename(*id);
            note_ref(refs, t);
            assert(value_refs(PdfValue::Reference(t.0, t.1)) =~= set![t]);
            Object::Reference(t)
        },
        Object::Array(items) => {
            proof {
                lemma_array_value(*items);
            }
            let skip: Option<usize> = match a {
                TraverseAction::DeleteReferencesTo(id) => first_reference(items, *id),
                _ => None,
            };
            let ghost skip_spec: int = match skip {
                Some(k) => k as int,
                None => -1,
            };
            let ghost start = refs@;
            let mut out: Vec<Object> = Vec::new();
            let mut i: usize = 0;
            while i < items.len()
                invariant
                    i <= items@.len(),
                    values_of(out@) == walked_items(*a, values_of(items@.subrange(0, i as int)), skip_spec),
                    refs@.no_duplicates(),
                    refs@.to_set() == start.to_set() + items_refs(values_of(out@)),
                    start.len() <= refs@.len(),
                    refs@.subrange(0, start.len() as int) == start,
                decreases items@.len() - i,
            {
                proof {
                    assert(decreases_to!(*items => items[i as int]));
                    assert(values_of(items@.subrange(0, i + 1)).drop_last() =~= values_of(items@.subrange(0, i as int)));
                }
                let ghost before_out = out@;
                let ghost before_refs = refs@;
                if skip != Some(i) {
                    let w = walk_object(&items[i], a, refs);
                    out.push(w);
                    assert(values_of(out@).drop_last() =~= values_of(before_out));
                } else {
                    assert(values_of(out@) =~= values_of(before_out));
                }
                proof {
                    assert(refs@.subrange(0, start.len() as int) =~= refs@.subrange(0, before_refs.len() as int).subrange(0,
                        start.len() as int));
                }
                i = i + 1;
            }
            assert(items@.subrange(0, items@.len() as int) =~= items@);
            let r = Object::Array(out);
            proof {
                lemma_array_value(out);
            }
            r
        },
        Object::Dictionary(d) => {
            proof {
                lemma_dictionary_value(*d);
            }
            let dropped: Option<ObjectId> = match a {
                TraverseAction::DeleteReferencesTo(id) => Some(*id),
                _ => None,
            };
            let w = walk_dictionary(d, a, dropped, refs);
            proof {
                lemma_dictionary_value(w);
            }
            Object::Dictionary(w)
        },
        Object::Stream(st) => {
            proof {
                lemma_stream_value(*st);
            }
            let dict = walk_dictionary(&st.dict, a, None, refs);
            let r = crate::object::Stream {
                dict,
                content: copy_bytes(&st.content),
                allows_compression: st.allows_compression,
                start_position: st.start_position,
            };
            proof {
                lemma_stream_value(r);
            }
            Object::Stream(r)
        },
        _ => {
            let r = clone_object(o);
            assert(value_refs(r@) =~= Set::<ObjectId>::empty());
            assert(refs@.subrange(0, refs@.len() as int) =~= refs@);
            r
        },
    }
}

/// The index of the first reference to `id` among `items`.
fn first_reference(items: &Vec<Object>, id: ObjectId) -> (r: Option<usize>)
    ensures
        match r {
            Some(k) => first_ref_index(values_of(items@), id) == k as int,
            None => first_ref_index(values_of(items@), id) == -1,
        },
{
    let mut i: usize = 0;
    while i < items.len()
        invariant
            i <= items@.len(),
            first_ref_index(values_of(items@.subrange(0, i as int)), id) == -1,
        decreases items@.len() - i,
    {
        assert(values_of(items@.subrange(0, i + 1)).drop_last() =~= values_of(items@.subrange(0, i as int)));
        match &items[i] {
            Object::Reference(r) => {
                if r.0 == id.0 && r.1 == id.1 {
                    proof {
                        lemma_first_ref_prefix(values_of(items@), id, i + 1);
                        assert(values_of(items@.subrange(0, i + 1)) =~= values_of(items@).subrange(0, i + 1));
                    }
                    return Some(i);
                }
            },
            _ => {},
        }
        i = i + 1;
    }
    assert(values_of(items@.subrange(0, items@.len() as int)) =~= values_of(items@));
    None
}

/// Where the first reference to `id` lies among the first `n` items, it
/// lies there among all of them.
proof fn lemma_first_ref_prefix(items: Seq<PdfValue>, id: ObjectId, n: int)
    requires
        0 <= n <= items.len(),
        first_ref_index(items.subrange(0, n), id) >= 0,
    ensures
        first_ref_index(items, id) == first_ref_index(items.subrange(0, n), id),
    decreases items.len(),
{
    if n < items.len() {
        assert(items.drop_last().subrange(0, n) =~= items.subrange(0, n));
        lemma_first_ref_prefix(items.drop_last(), id, n);
    } else {
        assert(items.subrange(0, n) =~= items);
    }
}

#[verifier::loop_isolation(false)]
/// The walk of a dictionary's entries: those that refer to `dropped` taken
/// out, the others walked.
fn walk_dictionary(d: &Dictionary, a: &TraverseAction, dropped: Option<ObjectId>, refs: &mut Vec<ObjectId>) -> (r: Dictionary)
    requires
        old(refs)@.no_duplicates(),
    ensures
        pairs_values(dict_pairs(r)) == walked_entries(*a, pairs_values(dict_pairs(*d)), dropped),
        final(refs)@.no_duplicates(),
        final(refs)@.to_set() == old(refs)@.to_set() + entries_refs(pairs_values(dict_pairs(r))),
        old(refs)@.len() <= final(refs)@.len(),
        final(refs)@.subrange(0, old(refs)@.len() as int) == old(refs)@,
    decreases d, 0nat,
{
    let entries = d.entries();
    let ghost start = refs@;
    let ghost pv = pairs_values(dict_pairs(*d));
    let mut out: Vec<(Vec<u8>, Object)> = Vec::new();
    let mut i: usize = 0;
    while i < entries.len()
        invariant
            i <= entries@.len(),
            entries@ == dict_pairs(*d),
            pv == pairs_values(dict_pairs(*d)),
            pairs_values(out@) == walked_entries(*a, pv.subrange(0, i as int), dropped),
            refs@.no_duplicates(),
            refs@.to_set() == start.to_set() + entries_refs(pairs_values(out@)),
            start.len() <= refs@.len(),
            refs@.subrange(0, start.len() as int) == start,
        decreases entries@.len() - i,
    {
        proof {
            lemma_dictionary_decreases(*d, i as int);
            assert(pv.subrange(0, i + 1).drop_last() =~= pv.subrange(0, i as int));
        }
        let ghost before_out = out@;
        let ghost before_refs = refs@;
        let skip = match dropped {
            Some(id) => match &entries[i].1 {
                Object::Reference(r) => r.0 == id.0 && r.1 == id.1,
                _ => false,
            },
            None => false,
        };
        if !skip {
            let w = walk_object(&entries[i].1, a, refs);
            out.push((copy_bytes(&entries[i].0), w));
            assert(pairs_values(out@).drop_last() =~= pairs_values(before_out));
        } else {
            assert(pairs_values(out@) =~= pairs_values(before_out));
        }
        proof {
            assert(refs@.subrange(0, start.len() as int) =~= refs@.subrange(0, before_refs.len() as int).subrange(0,
                start.len() as int));
        }
        i = i + 1;
    }
    assert(pv.subrange(0, entries@.len() as int) =~= pv);
    Dictionary::of_entries(out)
}

/// The references that one walk added after `before`: the elements of
/// `after` past `before` are new, so they come from `extra`.
proof fn lemma_new_refs(before: Seq<ObjectId>, after: Seq<ObjectId>, extra: Set<ObjectId>)
    requires
        after.no_duplicates(),
        before.len() <= after.len(),
        after.subrange(0, before.len() as int) == before,
        after.to_set() == before.to_set() + extra,
    ensures
        forall|i: int| before.len() <= i < after.len() ==> extra.contains(#[trigger] after[i]),
{
    assert forall|i: int| before.len() <= i < after.len() implies extra.contains(#[trigger] after[i]) by {
        assert(after.to_set().contains(after[i]));
        if before.contains(after[i]) {
            let j = choose|j: int| 0 <= j < before.len() && before[j] == after[i];
            assert(after[j] == before[j]);
        }
    }
}

/// Whether each identifier in `refs` is met on the walk before it is
/// recorded: it is referred to from the walked trailer, or from an object
/// recorded before it, as walked.
pub open spec fn walk_justified(a: TraverseAction, objects: Map<ObjectId, Object>, trailer_refs: Set<ObjectId>,
    refs: Seq<ObjectId>) -> bool
{
    forall|i: int| 0 <= i < refs.len() ==> trailer_refs.contains(#[trigger] refs[i]) || exists|j: int| 0 <= j < i
        && objects.contains_key(refs[j]) && value_refs(walked(a, objects[refs[j]]@)).contains(refs[i])
}

/// Whether `refs` is closed under the walk: what the walked trailer refers
/// to, and what each recorded object refers to once walked, is recorded.
pub open spec fn walk_closed(a: TraverseAction, objects: Map<ObjectId, Object>, trailer_refs: Set<ObjectId>,
    refs: Seq<ObjectId>) -> bool
{
    &&& trailer_refs.subset_of(refs.to_set())
    &&& forall|k: ObjectId| #[trigger] refs.contains(k) && objects.contains_key(k) ==> value_refs(walked(a, objects[k]@)).subset_of(
        refs.to_set())
}

/// Whether `processed` holds the objects among the first `index` recorded.
#[verifier::opaque]
pub open spec fn processed_ok(processed: Set<ObjectId>, orig: Map<ObjectId, Object>, refs: Seq<ObjectId>, index: int) -> bool {
    forall|k: ObjectId| #[trigger] processed.contains(k) <==> (orig.contains_key(k) && refs.subrange(0, index).contains(k))
}

/// Whether each recorded identifier is justified by the trailer or by an
/// object among the first `index` recorded, recorded before it.
#[verifier::opaque]
pub open spec fn justified_upto(a: TraverseAction, orig: Map<ObjectId, Object>, trailer_refs: Set<ObjectId>,
    refs: Seq<ObjectId>, index: int) -> bool
{
    forall|i: int| 0 <= i < refs.len() ==> trailer_refs.contains(#[trigger] refs[i]) || exists|j: int| 0 <= j < i && j < index
        && orig.contains_key(refs[j]) && value_refs(walked(a, orig[refs[j]]@)).contains(refs[i])
}

/// Whether what the first `index` recorded objects refer to, once walked,
/// is recorded.
#[verifier::opaque]
pub open spec fn closed_upto(a: TraverseAction, orig: Map<ObjectId, Object>, refs: Seq<ObjectId>, index: int) -> bool {
    forall|j: int| 0 <= j < index && orig.contains_key(refs[j]) ==> value_refs(walked(a, orig[#[trigger] refs[j]]@)).subset_of(
        refs.to_set())
}

/// The walk starts justified and closed over no object.
proof fn lemma_walk_start(a: TraverseAction, orig: Map<ObjectId, Object>, refs: Seq<ObjectId>)
    ensures
        processed_ok(Set::empty(), orig, refs, 0),
        justified_upto(a, orig, refs.to_set(), refs, 0),
        closed_upto(a, orig, refs, 0),
{
    reveal(processed_ok);
    reveal(justified_upto);
    reveal(closed_upto);
    assert(refs.subrange(0, 0) =~= Seq::<ObjectId>::empty());
    assert forall|i: int| 0 <= i < refs.len() implies refs.to_set().contains(#[trigger] refs[i]) by {}
}

/// One step of the walk: the recorded identifier at `index` names an object,
/// which is walked, and what it refers to is recorded after.
proof fn lemma_walk_step(a: TraverseAction, orig: Map<ObjectId, Object>, trailer_refs: Set<ObjectId>,
    processed: Set<ObjectId>, before: Seq<ObjectId>, after: Seq<ObjectId>, index: int)
    requires
        processed_ok(processed, orig, before, index),
        justified_upto(a, orig, trailer_refs, before, index),
        closed_upto(a, orig, before, index),
        before.no_duplicates(),
        after.no_duplicates(),
        0 <= index < before.len(),
        orig.contains_key(before[index]),
        before.len() <= after.len(),
        after.subrange(0, before.len() as int) == before,
        after.to_set() == before.to_set() + value_refs(walked(a, orig[before[index]]@)),
    ensures
        processed_ok(processed.insert(before[index]), orig, after, index + 1),
        justified_upto(a, orig, trailer_refs, after, index + 1),
        closed_upto(a, orig, after, index + 1),
        before.to_set().subset_of(after.to_set()),
{
    reveal(processed_ok);
    reveal(justified_upto);
    reveal(closed_upto);
    let id = before[index];
    lemma_new_refs(before, after, value_refs(walked(a, orig[id]@)));
    assert(after.subrange(0, index + 1) =~= before.subrange(0, index + 1));
    assert(before.subrange(0, index + 1) =~= before.subrange(0, index).push(id));
    assert forall|k: ObjectId| #[trigger] processed.insert(id).contains(k) <==> (orig.contains_key(k)
        && after.subrange(0, index + 1).contains(k)) by {
        if after.subrange(0, index + 1).contains(k) && k != id {
            let j = choose|j: int| 0 <= j < index + 1 && #[trigger] after.subrange(0, index + 1)[j] == k;
            assert(before.subrange(0, index)[j] == k);
        }
        if before.subrange(0, index).contains(k) {
            let j = choose|j: int| 0 <= j < index && #[trigger] before.subrange(0, index)[j] == k;
            assert(after.subrange(0, index + 1)[j] == k);
        }
        if k == id {
            assert(after.subrange(0, index + 1)[index] == k);
        }
    }
    assert forall|i: int| 0 <= i < after.len() implies trailer_refs.contains(#[trigger] after[i]) || exists|j: int|
        0 <= j < i && j < index + 1 && orig.contains_key(after[j]) && value_refs(walked(a, orig[after[j]]@)).contains(after[i]) by {
        if i < before.len() {
            assert(after[i] == before[i]);
            if !trailer_refs.contains(before[i]) {
                let j = choose|j: int| 0 <= j < i && j < index && orig.contains_key(before[j]) && value_refs(walked(a,
                    orig[before[j]]@)).contains(before[i]);
                assert(after[j] == before[j]);
            }
        } else {
            assert(after[index] == id);
        }
    }
    assert forall|j: int| 0 <= j < index + 1 && orig.contains_key(after[j]) implies value_refs(walked(a,
        orig[#[trigger] after[j]]@)).subset_of(after.to_set()) by {
        assert(after[j] == before[j]);
        if j < index {
            assert(value_refs(walked(a, orig[before[j]]@)).subset_of(before.to_set()));
        }
    }
    assert forall|k: ObjectId| before.to_set().contains(k) implies after.to_set().contains(k) by {}
}

/// A step of the walk over an identifier that names no object.
proof fn lemma_walk_skip(a: TraverseAction, orig: Map<ObjectId, Object>, trailer_refs: Set<ObjectId>,
    processed: Set<ObjectId>, refs: Seq<ObjectId>, index: int)
    requires
        processed_ok(processed, orig, refs, index),
        justified_upto(a, orig, trailer_refs, refs, index),
        closed_upto(a, orig, refs, index),
        0 <= index < refs.len(),
        !orig.contains_key(refs[index]),
    ensures
        processed_ok(processed, orig, refs, index + 1),
        justified_upto(a, orig, trailer_refs, refs, index + 1),
        closed_upto(a, orig, refs, index + 1),
{
    reveal(processed_ok);
    reveal(justified_upto);
    reveal(closed_upto);
    assert(refs.subrange(0, index + 1) =~= refs.subrange(0, index).push(refs[index]));
    assert forall|k: ObjectId| #[trigger] processed.contains(k) <==> (orig.contains_key(k)
        && refs.subrange(0, index + 1).contains(k)) by {
        if refs.subrange(0, index + 1).contains(k) && k != refs[index] {
            let j = choose|j: int| 0 <= j < index + 1 && #[trigger] refs.subrange(0, index + 1)[j] == k;
            assert(refs.subrange(0, index)[j] == k);
        }
        if refs.subrange(0, index).contains(k) {
            let j = choose|j: int| 0 <= j < index && #[trigger] refs.subrange(0, index)[j] == k;
            assert(refs.subrange(0, index + 1)[j] == k);
        }
    }
}

/// At the end of the walk, every recorded object is closed and justified.
proof fn lemma_walk_end(a: TraverseAction, orig: Map<ObjectId, Object>, trailer_refs: Set<ObjectId>,
    processed: Set<ObjectId>, refs: Seq<ObjectId>)
    requires
        processed_ok(processed, orig, refs, refs.len() as int),
        justified_upto(a, orig, trailer_refs, refs, refs.len() as int),
        closed_upto(a, orig, refs, refs.len() as int),
        trailer_refs.subset_of(refs.to_set()),
    ensures
        walk_closed(a, orig, trailer_refs, refs),
        walk_justified(a, orig, trailer_refs, refs),
        forall|k: ObjectId| #[trigger] processed.contains(k) <==> (orig.contains_key(k) && refs.contains(k)),
{
    reveal(processed_ok);
    reveal(justified_upto);
    reveal(closed_upto);
    assert(refs.subrange(0, refs.len() as int) =~= refs);
    assert forall|k: ObjectId| #[trigger] refs.contains(k) && orig.contains_key(k) implies value_refs(walked(a,
        orig[k]@)).subset_of(refs.to_set()) by {
        let j = choose|j: int| 0 <= j < refs.len() && refs[j] == k;
    }
}

impl Document {
    /// Walks the objects reachable from the trailer: applies the action to
    /// each value of the trailer and to each object reached, then to what
    /// remains inside it, and gives the objects reached, each once, in the
    /// order they were met.
    pub fn traverse_objects(&mut self, action: &TraverseAction) -> (r: Vec<ObjectId>)
        ensures
            r@.no_duplicates(),
            pairs_values(dict_pairs(final(self).trailer)) == walked_entries(*action, pairs_values(dict_pairs(old(self).trailer)),
                None),
            walk_closed(*action, old(self).objects@, entries_refs(pairs_values(dict_pairs(final(self).trailer))), r@),
            walk_justified(*action, old(self).objects@, entries_refs(pairs_values(dict_pairs(final(self).trailer))), r@),
            final(self).objects@.dom() == old(self).objects@.dom(),
            forall|k: ObjectId| #[trigger] old(self).objects@.contains_key(k) ==> if r@.contains(k) {
                final(self).objects@[k]@ == walked(*action, old(self).objects@[k]@)
            } else {
                final(self).objects@[k] == old(self).objects@[k]
            },
            final(self).max_id == old(self).max_id,
            final(self).version == old(self).version,
            final(self).reference_table == old(self).reference_table,
            final(self).xref_start == old(self).xref_start,
            final(self).encryption_state == old(self).encryption_state,
            final(self).max_bookmark_id == old(self).max_bookmark_id,
    {
        let mut refs: Vec<ObjectId> = Vec::new();
        assert(refs@.no_duplicates());
        let new_trailer = walk_dictionary(&self.trailer, action, None, &mut refs);
        self.trailer = new_trailer;
        let ghost trailer_refs = refs@.to_set();
        assert(trailer_refs =~= entries_refs(pairs_values(dict_pairs(self.trailer))));
        let ghost orig = self.objects@;
        let ghost mut processed: Set<ObjectId> = Set::empty();
        proof {
            lemma_walk_start(*action, orig, refs@);
        }
        let mut index: usize = 0;
        while index < refs.len()
            invariant
                index <= refs@.len(),
                refs@.no_duplicates(),
                self.objects@.dom() == orig.dom(),
                orig.dom().finite(),
                processed.finite(),
                processed.subset_of(orig.dom()),
                processed_ok(processed, orig, refs@, index as int),
                justified_upto(*action, orig, trailer_refs, refs@, index as int),
                closed_upto(*action, orig, refs@, index as int),
                forall|k: ObjectId| #[trigger] orig.contains_key(k) ==> if processed.contains(k) {
                    self.objects@[k]@ == walked(*action, orig[k]@)
                } else {
                    self.objects@[k] == orig[k]
                },
                trailer_refs.subset_of(refs@.to_set()),
                self.max_id == old(self).max_id,
                self.version == old(self).version,
                self.reference_table == old(self).reference_table,
                self.xref_start == old(self).xref_start,
                self.encryption_state == old(self).encryption_state,
                self.max_bookmark_id == old(self).max_bookmark_id,
                self.trailer == new_trailer,
            decreases orig.dom().len() - processed.len(), refs@.len() - index,
        {
            proof {
                vstd::set_lib::lemma_len_subset(processed, orig.dom());
            }
            let id = refs[index];
            let ghost before = refs@;
            proof {
                reveal(processed_ok);
                assert(!processed.contains(id)) by {
                    if refs@.subrange(0, index as int).contains(id) {
                        let j = choose|j: int| 0 <= j < index && #[trigger] refs@.subrange(0, index as int)[j] == id;
                        assert(refs@[j] == refs@[index as int]);
                    }
                }
            }
            match self.objects.remove(&id) {
                Some(o) => {
                    let w = walk_object(&o, action, &mut refs);
                    self.objects.insert(id, w);
                    proof {
                        lemma_walk_step(*action, orig, trailer_refs, processed, before, refs@, index as int);
                        let old_len = processed.len();
                        processed = processed.insert(id);
                        assert(processed.len() == old_len + 1);
                        assert(processed.subset_of(orig.dom()));
                        vstd::set_lib::lemma_len_subset(processed, orig.dom());
                    }
                },
                None => {
                    proof {
                        lemma_walk_skip(*action, orig, trailer_refs, processed, refs@, index as int);
                    }
                },
            }
            index = index + 1;
        }
        proof {
            lemma_walk_end(*action, orig, trailer_refs, processed, refs@);
        }
        refs
    }
}

/// Walking with no action changes no value.
pub proof fn lemma_walk_nothing(v: PdfValue)
    ensures
        walked(TraverseAction::Nothing, v) == v,
    decreases v,
{
    match v {
        PdfValue::Array(items) => {
            lemma_walk_nothing_items(items);
        },
        PdfValue::Dictionary(entries) => {
            lemma_walk_nothing_entries(entries);
        },
        PdfValue::Stream(entries, _) => {
            lemma_walk_nothing_entries(entries);
        },
        _ => {},
    }
}

proof fn lemma_walk_nothing_items(items: Seq<PdfValue>)
    ensures
        walked_items(TraverseAction::Nothing, items, -1) == items,
    decreases items,
{
    if items.len() > 0 {
        assert(decreases_to!(items => items[items.len() - 1]));
        lemma_walk_nothing_items(items.drop_last());
        lemma_walk_nothing(items.last());
        assert(items.drop_last().push(items.last()) =~= items);
    }
}

proof fn lemma_walk_nothing_entries(entries: Seq<(Seq<u8>, PdfValue)>)
    ensures
        walked_entries(TraverseAction::Nothing, entries, None) == entries,
    decreases entries,
{
    if entries.len() > 0 {
        assert(decreases_to!(entries => entries[entries.len() - 1]));
        lemma_walk_nothing_entries(entries.drop_last());
        lemma_walk_nothing(entries.last().1);
        assert(entries.drop_last().push(entries.last()) =~= entries);
    }
}

/// A walk keeps a stream a stream with the same content, and anything
/// else something other than a stream.
pub proof fn lemma_walk_keeps_streams(a: TraverseAction, v: PdfValue)
    ensures
        walked(a, v) is Stream <==> v is Stream,
        v matches PdfValue::Stream(_, c) ==> walked(a, v) matches PdfValue::Stream(_, c2) && c2 == c,
{
}

/// Pushing `x` adds `x` to what a sequence contains.
proof fn lemma_push_contains(s: Seq<ObjectId>, x: ObjectId)
    ensures
        forall|k: ObjectId| #[trigger] s.push(x).contains(k) <==> (s.contains(k) || k == x),
        s.push(x).to_set() == s.to_set().insert(x),
{
    let t = s.push(x);
    assert forall|k: ObjectId| #[trigger] t.contains(k) <==> (s.contains(k) || k == x) by {
        if k == x {
            assert(t[t.len() - 1] == x);
        }
        if s.contains(k) {
            let j = choose|j: int| 0 <= j < s.len() && s[j] == k;
            assert(t[j] == k);
        }
        if t.contains(k) && k != x {
            let j = choose|j: int| 0 <= j < t.len() && t[j] == k;
            assert(s[j] == k);
        }
    }
    assert(t.to_set() =~= s.to_set().insert(x));
}

/// Whether an object is a stream without content.
pub open spec fn is_empty_stream(o: Object) -> bool {
    o matches Object::Stream(st) && st.content@.len() == 0
}

impl Document {
    /// Removes every object that the trailer does not reach, and gives their
    /// identifiers.
    pub fn prune_objects(&mut self) -> (r: Vec<ObjectId>)
        ensures
            r@.no_duplicates(),
            exists|refs: Seq<ObjectId>| #![trigger walk_closed(TraverseAction::Nothing, old(self).objects@,
                entries_refs(pairs_values(dict_pairs(old(self).trailer))), refs)] {
                &&& walk_closed(TraverseAction::Nothing, old(self).objects@,
                    entries_refs(pairs_values(dict_pairs(old(self).trailer))), refs)
                &&& walk_justified(TraverseAction::Nothing, old(self).objects@,
                    entries_refs(pairs_values(dict_pairs(old(self).trailer))), refs)
                &&& final(self).objects@.dom() == old(self).objects@.dom().intersect(refs.to_set())
                &&& r@.to_set() == old(self).objects@.dom().difference(refs.to_set())
            },
            forall|k: ObjectId| #[trigger] final(self).objects@.contains_key(k) ==> final(self).objects@[k]@
                == old(self).objects@[k]@,
            pairs_values(dict_pairs(final(self).trailer)) == pairs_values(dict_pairs(old(self).trailer)),
    {
        let ghost orig = self.objects@;
        let refs = self.traverse_objects(&TraverseAction::Nothing);
        proof {
            lemma_walk_nothing_entries(pairs_values(dict_pairs(old(self).trailer)));
            assert forall|k: ObjectId| #[trigger] orig.contains_key(k) implies self.objects@[k]@ == orig[k]@ by {
                lemma_walk_nothing(orig[k]@);
            }
        }
        let ids = self.object_ids();
        let mut removed: Vec<ObjectId> = Vec::new();
        let ghost walked_objects = self.objects@;
        let ghost trailer = self.trailer;
        let mut i: usize = 0;
        while i < ids.len()
            invariant
                i <= ids@.len(),
                ids@.to_set() == walked_objects.dom(),
                ids@.no_duplicates(),
                removed@.no_duplicates(),
                forall|k: ObjectId| #[trigger] removed@.contains(k) <==> (ids@.subrange(0, i as int).contains(k)
                    && !refs@.contains(k)),
                self.objects@.dom() == walked_objects.dom().difference(removed@.to_set()),
                forall|k: ObjectId| #[trigger] self.objects@.contains_key(k) ==> self.objects@[k] == walked_objects[k],
                self.trailer == trailer,
            decreases ids@.len() - i,
        {
            let id = ids[i];
            assert(ids@.subrange(0, i + 1) =~= ids@.subrange(0, i as int).push(id));
            assert(!ids@.subrange(0, i as int).contains(id)) by {
                if ids@.subrange(0, i as int).contains(id) {
                    let j = choose|j: int| 0 <= j < i && #[trigger] ids@.subrange(0, i as int)[j] == id;
                    assert(ids@[j] == ids@[i as int]);
                }
            }
            if !contains_id(&refs, id) {
                self.objects.remove(&id);
                let ghost before = removed@;
                removed.push(id);
                proof {
                    lemma_push_contains(before, id);
                    assert(removed@ == before.push(id));
                    assert forall|a: int, b: int| 0 <= a < b < removed@.len() implies removed@[a] != removed@[b] by {
                        if b == removed@.len() - 1 {
                            assert(before[a] == removed@[a]);
                            assert(before.contains(removed@[a]));
                        }
                    }
                }
            }
            proof {
                assert forall|k: ObjectId| #[trigger] removed@.contains(k) <==> (ids@.subrange(0, i + 1).contains(k)
                    && !refs@.contains(k)) by {
                    if ids@.subrange(0, i + 1).contains(k) && k != id {
                        let j = choose|j: int| 0 <= j < i + 1 && #[trigger] ids@.subrange(0, i + 1)[j] == k;
                        assert(ids@.subrange(0, i as int)[j] == k);
                    }
                    if ids@.subrange(0, i as int).contains(k) {
                        let j = choose|j: int| 0 <= j < i && #[trigger] ids@.subrange(0, i as int)[j] == k;
                        assert(ids@.subrange(0, i + 1)[j] == k);
                    }
                    if k == id {
                        assert(ids@.subrange(0, i + 1)[i as int] == k);
                    }
                }
            }
            i = i + 1;
        }
        proof {
            assert(ids@.subrange(0, ids@.len() as int) =~= ids@);
            assert(self.objects@.dom() =~= orig.dom().intersect(refs@.to_set()));
            assert(removed@.to_set() =~= orig.dom().difference(refs@.to_set()));
        }
        removed
    }

    /// Removes object `id` and, in every object that the trailer reaches,
    /// the references to it: the first one in each array, and each entry of
    /// a dictionary. Gives the object removed, as the walk left it.
    pub fn delete_object(&mut self, id: &ObjectId) -> (r: Option<Object>)
        ensures
            r is Some <==> old(self).objects@.contains_key(*id),
            final(self).objects@.dom() == old(self).objects@.dom().remove(*id),
            pairs_values(dict_pairs(final(self).trailer)) == walked_entries(TraverseAction::DeleteReferencesTo(*id),
                pairs_values(dict_pairs(old(self).trailer)), None),
            exists|refs: Seq<ObjectId>| #![trigger walk_closed(TraverseAction::DeleteReferencesTo(*id), old(self).objects@,
                entries_refs(pairs_values(dict_pairs(final(self).trailer))), refs)] {
                &&& walk_closed(TraverseAction::DeleteReferencesTo(*id), old(self).objects@,
                    entries_refs(pairs_values(dict_pairs(final(self).trailer))), refs)
                &&& walk_justified(TraverseAction::DeleteReferencesTo(*id), old(self).objects@,
                    entries_refs(pairs_values(dict_pairs(final(self).trailer))), refs)
                &&& forall|k: ObjectId| #[trigger] final(self).objects@.contains_key(k) ==> if refs.contains(k) {
                    final(self).objects@[k]@ == walked(TraverseAction::DeleteReferencesTo(*id), old(self).objects@[k]@)
                } else {
                    final(self).objects@[k] == old(self).objects@[k]
                }
                &&& r matches Some(o) ==> if refs.contains(*id) {
                    o@ == walked(TraverseAction::DeleteReferencesTo(*id), old(self).objects@[*id]@)
                } else {
                    o == old(self).objects@[*id]
                }
            },
            final(self).max_id == old(self).max_id,
            final(self).reference_table == old(self).reference_table,
    {
        let action = TraverseAction::DeleteReferencesTo(*id);
        let ghost orig = self.objects@;
        let refs = self.traverse_objects(&action);
        let ghost mid = self.objects@;
        let r = self.objects.remove(id);
        assert(walk_closed(TraverseAction::DeleteReferencesTo(*id), orig, entries_refs(pairs_values(dict_pairs(self.trailer))),
            refs@));
        assert(orig.contains_key(*id) ==> mid.contains_key(*id));
        r
    }

    /// Deletes every stream without content, as `delete_object` does, and
    /// gives their identifiers.
    pub fn delete_zero_length_streams(&mut self) -> (r: Vec<ObjectId>)
        ensures
            r@.no_duplicates(),
            r@.to_set() == old(self).objects@.dom().filter(|k: ObjectId| is_empty_stream(old(self).objects@[k])),
            final(self).objects@.dom() == old(self).objects@.dom().difference(r@.to_set()),
    {
        let ids = self.object_ids();
        let ghost orig = self.objects@;
        let mut deleted: Vec<ObjectId> = Vec::new();
        let mut i: usize = 0;
        while i < ids.len()
            invariant
                i <= ids@.len(),
                ids@.to_set() == orig.dom(),
                ids@.no_duplicates(),
                deleted@.no_duplicates(),
                forall|k: ObjectId| #[trigger] deleted@.contains(k) <==> (ids@.subrange(0, i as int).contains(k)
                    && is_empty_stream(orig[k])),
                self.objects@.dom() == orig.dom().difference(deleted@.to_set()),
                forall|k: ObjectId| #[trigger] self.objects@.contains_key(k) ==> (is_empty_stream(self.objects@[k])
                    <==> is_empty_stream(orig[k])),
            decreases ids@.len() - i,
        {
            let id = ids[i];
            assert(ids@.subrange(0, i + 1) =~= ids@.subrange(0, i as int).push(id));
            assert(!ids@.subrange(0, i as int).contains(id)) by {
                if ids@.subrange(0, i as int).contains(id) {
                    let j = choose|j: int| 0 <= j < i && #[trigger] ids@.subrange(0, i as int)[j] == id;
                    assert(ids@[j] == ids@[i as int]);
                }
            }
            assert(ids@.to_set().contains(id));
            let empty = match self.objects.get(&id) {
                Some(Object::Stream(st)) => st.content.len() == 0,
                _ => false,
            };
            if empty {
                let ghost before_objects = self.objects@;
                self.delete_object(&id);
                proof {
                    assert forall|k: ObjectId| #[trigger] self.objects@.contains_key(k) implies (is_empty_stream(self.objects@[k])
                        <==> is_empty_stream(orig[k])) by {
                        lemma_walk_keeps_streams(TraverseAction::DeleteReferencesTo(id), before_objects[k]@);
                        assert(is_empty_stream(self.objects@[k]) <==> is_empty_stream(before_objects[k]));
                    }
                }
                let ghost before = deleted@;
                deleted.push(id);
                proof {
                    lemma_push_contains(before, id);
                    assert(deleted@ == before.push(id));
                    assert forall|a: int, b: int| 0 <= a < b < deleted@.len() implies deleted@[a] != deleted@[b] by {
                        if b == deleted@.len() - 1 {
                            assert(before[a] == deleted@[a]);
                            assert(before.contains(deleted@[a]));
                        }
                    }
                    assert(self.objects@.dom() =~= orig.dom().difference(deleted@.to_set()));
                }
            }
            proof {
                assert forall|k: ObjectId| #[trigger] deleted@.contains(k) <==> (ids@.subrange(0, i + 1).contains(k)
                    && is_empty_stream(orig[k])) by {
                    if ids@.subrange(0, i + 1).contains(k) && k != id {
                        let j = choose|j: int| 0 <= j < i + 1 && #[trigger] ids@.subrange(0, i + 1)[j] == k;
                        assert(ids@.subrange(0, i as int)[j] == k);
                    }
                    if ids@.subrange(0, i as int).contains(k) {
                        let j = choose|j: int| 0 <= j < i && #[trigger] ids@.subrange(0, i as int)[j] == k;
                        assert(ids@.subrange(0, i + 1)[j] == k);
                    }
                    if k == id {
                        assert(ids@.subrange(0, i + 1)[i as int] == k);
                    }
                }
            }
            i = i + 1;
        }
        proof {
            assert(ids@.subrange(0, ids@.len() as int) =~= ids@);
            assert(deleted@.to_set() =~= orig.dom().filter(|k: ObjectId| is_empty_stream(orig[k])));
        }
        deleted
    }
}

/// Whether `after` is `before` as `Stream::compress` leaves it: unchanged,
/// or Flate-compressed where it had no /Filter and compression saves more
/// than 19 bytes.
pub open spec fn compressed_from(before: Stream, after: Stream) -> bool {
    ||| after == before
    ||| {
        let z = zlib_compressed(before.content@);
        &&& entries_get(before.dict@, filter_bytes()) is None
        &&& z.len() + 19 < before.content@.len()
        &&& after.content@ == z
        &&& exists|name: Object| name@ == PdfValue::Name(flate_decode_bytes()) && after.dict@ == entries_set(entries_set(
            before.dict@, filter_bytes(), name), length_bytes(), Object::Integer(z.len() as i64))
        &&& after.allows_compression == before.allows_compression
        &&& after.start_position == before.start_position
    }
}

/// Whether `after` is `before` with `content` as its data, unfiltered.
pub open spec fn with_plain_content(before: Stream, content: Seq<u8>, after: Stream) -> bool {
    &&& after.content@ == content
    &&& after.dict@ == entries_set(entries_remove(entries_remove(before.dict@, decode_parms_bytes()), filter_bytes()),
        length_bytes(), Object::Integer(content.len() as i64))
    &&& after.allows_compression == before.allows_compression
    &&& after.start_position == before.start_position
}

/// Whether `after` is `before` with the data of stream `id` replaced by
/// `content` and compressed; no other object changes.
pub open spec fn content_stream_changed(before: Map<ObjectId, Object>, after: Map<ObjectId, Object>, id: ObjectId,
    content: Seq<u8>) -> bool
{
    &&& after.dom() == before.dom()
    &&& forall|k: ObjectId| #[trigger] before.contains_key(k) && k != id ==> after[k] == before[k]
    &&& match before.get(id) {
        Some(Object::Stream(st)) => after[id] matches Object::Stream(st2)
            && exists|mid: Stream| #[trigger] with_plain_content(st, content, mid) && compressed_from(mid, st2),
        _ => after == before,
    }
}

/// What `Document::compress` makes of an object.
pub open spec fn object_compressed(before: Object, after: Object) -> bool {
    match before {
        Object::Stream(st) => if st.allows_compression {
            after matches Object::Stream(st2) && compressed_from(st, st2)
        } else {
            after == before
        },
        _ => after == before,
    }
}

/// What `Document::decompress` makes of an object.
pub open spec fn object_decompressed(before: Object, after: Object) -> bool {
    match before {
        Object::Stream(st) => if stream_decodable(st.dict@) {
            after matches Object::Stream(st2) && exists|r: Result<(), Error>| decompressed_as(st, st2, r, None)
        } else {
            after == before
        },
        _ => after == before,
    }
}

impl Document {
    /// Compresses each stream that allows it, as `Stream::compress` does.
    pub fn compress(&mut self)
        ensures
            final(self).objects@.dom() == old(self).objects@.dom(),
            forall|k: ObjectId| #[trigger] old(self).objects@.contains_key(k) ==> object_compressed(old(self).objects@[k],
                final(self).objects@[k]),
            final(self).trailer == old(self).trailer,
    {
        let ids = self.object_ids();
        let ghost orig = self.objects@;
        let mut i: usize = 0;
        while i < ids.len()
            invariant
                i <= ids@.len(),
                ids@.to_set() == orig.dom(),
                ids@.no_duplicates(),
                self.objects@.dom() == orig.dom(),
                forall|k: ObjectId| #[trigger] orig.contains_key(k) ==> if ids@.subrange(0, i as int).contains(k) {
                    object_compressed(orig[k], self.objects@[k])
                } else {
                    self.objects@[k] == orig[k]
                },
                self.trailer == old(self).trailer,
            decreases ids@.len() - i,
        {
            let id = ids[i];
            proof {
                lemma_push_contains(ids@.subrange(0, i as int), id);
                assert(ids@.subrange(0, i + 1) =~= ids@.subrange(0, i as int).push(id));
                assert(ids@.to_set().contains(id));
                if ids@.subrange(0, i as int).contains(id) {
                    let j = choose|j: int| 0 <= j < i && #[trigger] ids@.subrange(0, i as int)[j] == id;
                    assert(ids@[j] == ids@[i as int]);
                }
            }
            match self.objects.remove(&id) {
                Some(Object::Stream(st)) => {
                    let mut st = st;
                    let ghost before = st;
                    if st.allows_compression {
                        let _ = st.compress();
                    }
                    assert(compressed_from(before, st) || !before.allows_compression);
                    self.objects.insert(id, Object::Stream(st));
                },
                Some(o) => {
                    self.objects.insert(id, o);
                },
                None => {},
            }
            i = i + 1;
        }
        assert(ids@.subrange(0, ids@.len() as int) =~= ids@);
    }

    /// Decodes each stream whose filters decode, as `Stream::decompress`
    /// does.
    pub fn decompress(&mut self)
        ensures
            final(self).objects@.dom() == old(self).objects@.dom(),
            forall|k: ObjectId| #[trigger] old(self).objects@.contains_key(k) ==> object_decompressed(old(self).objects@[k],
                final(self).objects@[k]),
            final(self).trailer == old(self).trailer,
    {
        let ids = self.object_ids();
        let ghost orig = self.objects@;
        let mut i: usize = 0;
        while i < ids.len()
            invariant
                i <= ids@.len(),
                ids@.to_set() == orig.dom(),
                ids@.no_duplicates(),
                self.objects@.dom() == orig.dom(),
                forall|k: ObjectId| #[trigger] orig.contains_key(k) ==> if ids@.subrange(0, i as int).contains(k) {
                    object_decompressed(orig[k], self.objects@[k])
                } else {
                    self.objects@[k] == orig[k]
                },
                self.trailer == old(self).trailer,
            decreases ids@.len() - i,
        {
            let id = ids[i];
            proof {
                lemma_push_contains(ids@.subrange(0, i as int), id);
                assert(ids@.subrange(0, i + 1) =~= ids@.subrange(0, i as int).push(id));
                assert(ids@.to_set().contains(id));
                if ids@.subrange(0, i as int).contains(id) {
                    let j = choose|j: int| 0 <= j < i && #[trigger] ids@.subrange(0, i as int)[j] == id;
                    assert(ids@[j] == ids@[i as int]);
                }
            }
            match self.objects.remove(&id) {
                Some(Object::Stream(st)) => {
                    let mut st = st;
                    let ghost before = st;
                    if st.is_decodable() {
                        let r = st.decompress();
                        assert(decompressed_as(before, st, r, None));
                    }
                    self.objects.insert(id, Object::Stream(st));
                },
                Some(o) => {
                    self.objects.insert(id, o);
                },
                None => {},
            }
            i = i + 1;
        }
        assert(ids@.subrange(0, ids@.len() as int) =~= ids@);
    }

    /// Replaces the data of stream `stream_id` by `content`, unfiltered, then
    /// compresses it as `Stream::compress` does.
    pub fn change_content_stream(&mut self, stream_id: ObjectId, content: Vec<u8>)
        ensures
            content_stream_changed(old(self).objects@, final(self).objects@, stream_id, content@),
            final(self).trailer == old(self).trailer,
            final(self).max_id == old(self).max_id,
    {
        match self.objects.remove(&stream_id) {
            Some(Object::Stream(st)) => {
                let mut st = st;
                let ghost content_view = content@;
                st.set_plain_content(content);
                let ghost mid = st;
                let _ = st.compress();
                assert(with_plain_content(old(self).objects@[stream_id]->Stream_0, content_view, mid));
                self.objects.insert(stream_id, Object::Stream(st));
                assert(self.objects@.dom() =~= old(self).objects@.dom());
            },
            Some(o) => {
                self.objects.insert(stream_id, o);
                assert(self.objects@ =~= old(self).objects@);
            },
            None => {
                assert(self.objects@ =~= old(self).objects@);
            },
        }
    }

    /// Sets /Producer in the document information dictionary, that /Info of
    /// the trailer holds or refers to.
    pub fn change_producer(&mut self, producer: &str)
        ensures
            match entries_get(old(self).trailer@, info_bytes()) {
                Some(Object::Dictionary(d)) => {
                    &&& pairs_values(dict_pairs(final(self).trailer)) == entries_set(pairs_values(dict_pairs(old(self).trailer)),
                        info_bytes(), PdfValue::Dictionary(entries_set(pairs_values(dict_pairs(d)), producer_bytes(),
                        PdfValue::Str(utf8_bytes(producer@), StringFormat::Literal))))
                    &&& final(self).objects@ == old(self).objects@
                },
                Some(Object::Reference(id)) => {
                    &&& final(self).trailer == old(self).trailer
                    &&& match old(self).objects@.get(id) {
                        Some(Object::Dictionary(d)) => final(self).objects@.dom() == old(self).objects@.dom()
                            && (forall|k: ObjectId| #[trigger] old(self).objects@.contains_key(k) && k != id ==> final(self).objects@[k]
                                == old(self).objects@[k])
                            && final(self).objects@[id]@ == PdfValue::Dictionary(entries_set(pairs_values(dict_pairs(d)),
                                producer_bytes(), PdfValue::Str(utf8_bytes(producer@), StringFormat::Literal))),
                        _ => final(self).objects@ == old(self).objects@,
                    }
                },
                _ => final(self).trailer == old(self).trailer && final(self).objects@ == old(self).objects@,
            },
            final(self).max_id == old(self).max_id,
    {
        proof {
            crate::object::lemma_entries_get_values(dict_pairs(self.trailer), info_bytes());
        }
        let info_ref: Option<ObjectId> = match self.trailer.get(info_key().as_slice()) {
            Ok(Object::Dictionary(d)) => {
                let mut d2 = crate::object::clone_dictionary(d);
                let value = Object::string_literal(crate::encodings::encode_utf8_bytes(producer));
                let ghost before_d = dict_pairs(d2);
                let ghost v = value;
                d2.set(producer_key(), value);
                proof {
                    crate::object::lemma_pairs_values_set(before_d, dict_pairs(d2), producer_bytes(), v);
                    lemma_dictionary_value(d2);
                }
                let ghost before_t = dict_pairs(self.trailer);
                let new_info = Object::Dictionary(d2);
                let ghost ni = new_info;
                self.trailer.set(info_key(), new_info);
                proof {
                    crate::object::lemma_pairs_values_set(before_t, dict_pairs(self.trailer), info_bytes(), ni);
                }
                None
            },
            Ok(Object::Reference(id)) => Some(*id),
            _ => None,
        };
        match info_ref {
            Some(id) => match self.objects.remove(&id) {
                Some(Object::Dictionary(d)) => {
                    let mut d = d;
                    let value = Object::string_literal(crate::encodings::encode_utf8_bytes(producer));
                    let ghost before_d = dict_pairs(d);
                    let ghost v = value;
                    d.set(producer_key(), value);
                    proof {
                        crate::object::lemma_pairs_values_set(before_d, dict_pairs(d), producer_bytes(), v);
                        lemma_dictionary_value(d);
                    }
                    self.objects.insert(id, Object::Dictionary(d));
                },
                Some(o) => {
                    self.objects.insert(id, o);
                    assert(self.objects@ =~= old(self).objects@);
                },
                None => {},
            },
            None => {},
        }
    }
}

/// `a` comes before `b`: by number, then by generation.
pub open spec fn id_less(a: ObjectId, b: ObjectId) -> bool {
    a.0 < b.0 || (a.0 == b.0 && a.1 < b.1)
}

/// The identifiers are in strictly increasing order.
pub open spec fn sorted_ids(s: Seq<ObjectId>) -> bool {
    forall|i: int, j: int| 0 <= i < j < s.len() ==> id_less(#[trigger] s[i], #[trigger] s[j])
}

/// The moves that renumbering makes of the identifiers `ids`, in order: the
/// object at rank `k` (from 0) takes the number `k + 1` and keeps its
/// generation, where its number differs.
pub open spec fn renumber_moves(ids: Seq<ObjectId>) -> Seq<(ObjectId, ObjectId)>
    decreases ids.len(),
{
    if ids.len() == 0 {
        Seq::empty()
    } else {
        let k = ids.len() - 1;
        renumber_moves(ids.drop_last()) + if ids[k].0 != k + 1 {
            seq![(ids[k], ((k + 1) as u32, ids[k].1))]
        } else {
            Seq::empty()
        }
    }
}

/// The moves as a map from old identifiers to new ones.
pub open spec fn moves_map(moves: Seq<(ObjectId, ObjectId)>) -> Map<ObjectId, ObjectId>
    decreases moves.len(),
{
    if moves.len() == 0 {
        Map::empty()
    } else {
        moves_map(moves.drop_last()).insert(moves.last().0, moves.last().1)
    }
}

/// The objects after the moves, made one after the other: each takes the
/// object at its old identifier, where there is one, to its new one.
pub open spec fn apply_moves(objects: Map<ObjectId, Object>, moves: Seq<(ObjectId, ObjectId)>) -> Map<ObjectId, Object>
    decreases moves.len(),
{
    if moves.len() == 0 {
        objects
    } else {
        let m = apply_moves(objects, moves.drop_last());
        let (o, n) = moves.last();
        if m.contains_key(o) {
            m.remove(o).insert(n, m[o])
        } else {
            m
        }
    }
}

/// The identifiers of `v` in increasing order.
fn sort_ids(v: &Vec<ObjectId>) -> (r: Vec<ObjectId>)
    requires
        v@.no_duplicates(),
    ensures
        sorted_ids(r@),
        r@.to_set() == v@.to_set(),
        r@.len() == v@.len(),
        r@.no_duplicates(),
{
    let mut out: Vec<ObjectId> = Vec::new();
    let mut i: usize = 0;
    while i < v.len()
        invariant
            i <= v@.len(),
            v@.no_duplicates(),
            sorted_ids(out@),
            out@.to_set() == v@.subrange(0, i as int).to_set(),
            out@.len() == i,
        decreases v@.len() - i,
    {
        let x = v[i];
        assert(!out@.contains(x)) by {
            if out@.contains(x) {
                assert(v@.subrange(0, i as int).to_set().contains(x));
                let j = choose|j: int| 0 <= j < i && #[trigger] v@.subrange(0, i as int)[j] == x;
                assert(v@[j] == v@[i as int]);
            }
        }
        let mut p: usize = 0;
        while p < out.len() && (out[p].0 < x.0 || (out[p].0 == x.0 && out[p].1 < x.1))
            invariant
                p <= out@.len(),
                forall|j: int| 0 <= j < p ==> id_less(#[trigger] out@[j], x),
            decreases out@.len() - p,
        {
            p = p + 1;
        }
        let ghost before = out@;
        out.insert(p, x);
        proof {
            assert(forall|j: int| p <= j < before.len() ==> !id_less(before[j], x) ==> (j == p ==> before[j] != x)) by {}
            assert forall|a: int, b: int| 0 <= a < b < out@.len() implies id_less(#[trigger] out@[a], #[trigger] out@[b]) by {
                if p < before.len() && b != p as int && a != p as int {
                    let aa = if a < p { a } else { a - 1 };
                    let bb = if b < p { b } else { b - 1 };
                    assert(out@[a] == before[aa]);
                    assert(out@[b] == before[bb]);
                } else if a == p as int {
                    if p < before.len() {
                        assert(!id_less(before[p as int], x));
                        assert(before[p as int] != x) by {
                            assert(before.contains(before[p as int]));
                        }
                        assert(out@[b] == before[b - 1]);
                        if b - 1 > p {
                            assert(id_less(before[p as int], before[b - 1]));
                        }
                    }
                } else if b == p as int {
                    assert(out@[a] == before[a]);
                } else {
                    assert(out@[a] == before[a]);
                    assert(out@[b] == before[b]);
                }
            }
            assert(v@.subrange(0, i + 1) =~= v@.subrange(0, i as int).push(x));
            assert forall|k: ObjectId| out@.to_set().contains(k) <==> v@.subrange(0, i + 1).to_set().contains(k) by {
                lemma_push_contains(v@.subrange(0, i as int), x);
                if out@.contains(k) {
                    let j = choose|j: int| 0 <= j < out@.len() && out@[j] == k;
                    if j < p {
                        assert(before[j] == k);
                    } else if j > p {
                        assert(before[j - 1] == k);
                    }
                }
                if before.contains(k) {
                    let j = choose|j: int| 0 <= j < before.len() && before[j] == k;
                    if j < p {
                        assert(out@[j] == k);
                    } else {
                        assert(out@[j + 1] == k);
                    }
                }
                if k == x {
                    assert(out@[p as int] == x);
                }
            }
            assert(out@.to_set() =~= v@.subrange(0, i + 1).to_set());
        }
        i = i + 1;
    }
    assert(v@.subrange(0, v@.len() as int) =~= v@);
    assert(out@.no_duplicates()) by {
        assert forall|a: int, b: int| 0 <= a < b < out@.len() implies out@[a] != out@[b] by {
            assert(id_less(out@[a], out@[b]));
        }
    }
    out
}

impl Document {
    /// Renumbers the objects from 1 in the order of their identifiers,
    /// keeping generations, moves each object to its new identifier one
    /// after the other, then changes the references that the trailer
    /// reaches to match; the highest object number is then the number of
    /// objects.
    pub fn renumber_objects(&mut self)
        requires
            old(self).objects@.dom().len() < u32::MAX,
        ensures
            final(self).max_id == old(self).objects@.dom().len(),
            exists|ids: Seq<ObjectId>, m: BTreeMap<ObjectId, ObjectId>, refs: Seq<ObjectId>|
                #![trigger renumber_moves(ids), m@, refs.len()] {
                let moved = apply_moves(old(self).objects@, renumber_moves(ids));
                let a = TraverseAction::Renumber(m);
                &&& sorted_ids(ids)
                &&& ids.to_set() == old(self).objects@.dom()
                &&& m@ == moves_map(renumber_moves(ids))
                &&& final(self).objects@.dom() == moved.dom()
                &&& forall|k: ObjectId| #[trigger] moved.contains_key(k) ==> if refs.contains(k) {
                    final(self).objects@[k]@ == walked(a, moved[k]@)
                } else {
                    final(self).objects@[k] == moved[k]
                }
                &&& pairs_values(dict_pairs(final(self).trailer)) == walked_entries(a, pairs_values(dict_pairs(
                    old(self).trailer)), None)
                &&& walk_closed(a, moved, entries_refs(pairs_values(dict_pairs(final(self).trailer))), refs)
                &&& walk_justified(a, moved, entries_refs(pairs_values(dict_pairs(final(self).trailer))), refs)
            },
    {
        let unsorted = self.object_ids();
        let ids = sort_ids(&unsorted);
        proof {
            ids@.unique_seq_to_set();
        }
        let mut moves: Vec<(ObjectId, ObjectId)> = Vec::new();
        let mut replace: BTreeMap<ObjectId, ObjectId> = BTreeMap::new();
        let mut new_id: u32 = 1;
        let mut i: usize = 0;
        while i < ids.len()
            invariant
                i <= ids@.len(),
                ids@.len() < u32::MAX,
                new_id == i + 1,
                moves@ == renumber_moves(ids@.subrange(0, i as int)),
                replace@ == moves_map(moves@),
            decreases ids@.len() - i,
        {
            let id = ids[i];
            assert(ids@.subrange(0, i + 1).drop_last() =~= ids@.subrange(0, i as int));
            if id.0 != new_id {
                replace.insert(id, (new_id, id.1));
                let ghost before = moves@;
                moves.push((id, (new_id, id.1)));
                assert(moves@.drop_last() =~= before);
            } else {
                assert(moves@ =~= moves@ + Seq::<(ObjectId, ObjectId)>::empty());
            }
            new_id = new_id + 1;
            i = i + 1;
        }
        assert(ids@.subrange(0, ids@.len() as int) =~= ids@);
        let ghost orig = self.objects@;
        let mut j: usize = 0;
        while j < moves.len()
            invariant
                j <= moves@.len(),
                self.objects@ == apply_moves(orig, moves@.subrange(0, j as int)),
                self.trailer == old(self).trailer,
            decreases moves@.len() - j,
        {
            let (from, to) = moves[j];
            assert(moves@.subrange(0, j + 1).drop_last() =~= moves@.subrange(0, j as int));
            match self.objects.remove(&from) {
                Some(o) => {
                    self.objects.insert(to, o);
                },
                None => {},
            }
            j = j + 1;
        }
        assert(moves@.subrange(0, moves@.len() as int) =~= moves@);
        let ghost moved = self.objects@;
        let ghost m = replace;
        let action = TraverseAction::Renumber(replace);
        let refs = self.traverse_objects(&action);
        self.max_id = new_id - 1;
        assert(ids@.to_set() == orig.dom());
        assert(walk_closed(action, moved, entries_refs(pairs_values(dict_pairs(self.trailer))), refs@));
        assert(m@ == moves_map(renumber_moves(ids@)));
        assert(refs@.len() == refs@.len());
    }
}

/// Objects with the same value: a reference is the same reference, an
/// array has as many items, the first of them the same reference where it
/// is one.
proof fn lemma_same_value_shape(a: Object, b: Object)
    requires
        a@ == b@,
    ensures
        a matches Object::Reference(id) ==> b == a,
        b matches Object::Reference(id) ==> b == a,
        a is Array <==> b is Array,
        a matches Object::Array(x) ==> b matches Object::Array(y) && x@.len() == y@.len() && (x@.len() > 0 ==> (
            x@[0] matches Object::Reference(i) ==> y@[0] == x@[0]) && (y@[0] matches Object::Reference(i) ==> y@[0] == x@[0])),
{
    match (a, b) {
        (Object::Array(x), Object::Array(y)) => {
            lemma_array_value(x);
            lemma_array_value(y);
            assert(values_of(x@).len() == x@.len());
            assert(values_of(y@).len() == y@.len());
            if x@.len() > 0 {
                assert(values_of(x@)[0] == values_of(y@)[0]);
            }
        },
        _ => {},
    }
}

impl Document {
    /// Replaces the content of a page by `content`: in its one content
    /// stream where /Contents names one, else in a new stream that
    /// /Contents then refers to.
    pub fn change_page_content(&mut self, page_id: ObjectId, content: Vec<u8>)
        requires
            object_of(old(self).objects@, page_id) matches Ok(Object::Dictionary(page))
                && entries_get(page@, crate::names::contents_bytes()) is Some,
            old(self).max_id < u32::MAX,
            !old(self).objects@.contains_key(((old(self).max_id + 1) as u32, 0u16)),
        ensures
            object_of(old(self).objects@, page_id) matches Ok(Object::Dictionary(page))
                && entries_get(page@, crate::names::contents_bytes()) matches Some(contents) && match contents {
                Object::Reference(id) => content_stream_changed(old(self).objects@, final(self).objects@, id, content@),
                Object::Array(arr) => if arr@.len() == 1 {
                    match arr@[0] {
                        Object::Reference(id) => content_stream_changed(old(self).objects@, final(self).objects@, id, content@),
                        _ => final(self).objects@ == old(self).objects@,
                    }
                } else {
                    let new_id = ((old(self).max_id + 1) as u32, 0u16);
                    let target = crate::pages::page_target(old(self).objects@, page_id);
                    &&& final(self).max_id == old(self).max_id + 1
                    &&& final(self).objects@.dom() == old(self).objects@.dom().insert(new_id)
                    &&& final(self).objects@[new_id] matches Object::Stream(st) && st.content@ == content@
                    &&& final(self).objects@[target]@ == PdfValue::Dictionary(entries_set(pairs_values(dict_pairs(page)),
                        crate::names::contents_bytes(), PdfValue::Reference(new_id.0, new_id.1)))
                    &&& forall|k: ObjectId| #[trigger] old(self).objects@.contains_key(k) && k != target
                        ==> final(self).objects@[k] == old(self).objects@[k]
                },
                _ => final(self).objects@ == old(self).objects@,
            },
            final(self).trailer == old(self).trailer,
    {
        let (target, page) = match self.objects.get(&page_id) {
            Some(object) => match self.dereference(object) {
                Ok((t, Object::Dictionary(d))) => {
                    let target = match t {
                        Some(x) => x,
                        None => page_id,
                    };
                    (target, crate::object::clone_dictionary(d))
                },
                _ => {
                    return;
                },
            },
            None => {
                return;
            },
        };
        let ghost original = match object_of(self.objects@, page_id) {
            Ok(Object::Dictionary(d)) => d,
            _ => page,
        };
        proof {
            crate::pages::lemma_deref_target(self.objects@, self.objects@[page_id], None, 0);
            crate::object::lemma_entries_get_values(dict_pairs(page), crate::names::contents_bytes());
            crate::object::lemma_entries_get_values(dict_pairs(original), crate::names::contents_bytes());
        }
        let contents = match page.get(crate::names::contents_key().as_slice()) {
            Ok(c) => clone_object(c),
            Err(_) => {
                return;
            },
        };
        let ghost spec_contents = entries_get(original@, crate::names::contents_bytes())->Some_0;
        assert(contents@ == spec_contents@);
        proof {
            lemma_same_value_shape(contents, spec_contents);
        }
        match contents {
            Object::Reference(id) => {
                self.change_content_stream(id, content);
            },
            Object::Array(arr) => {
                if arr.len() == 1 {
                    match &arr[0] {
                        Object::Reference(id) => {
                            self.change_content_stream(*id, content);
                        },
                        _ => {},
                    }
                } else {
                    let stream = Stream::new(Dictionary::new(), content);
                    let new_id = self.add_object(Object::Stream(stream));
                    let mut page = page;
                    let ghost before_page = dict_pairs(page);
                    let value = Object::Reference(new_id);
                    page.set(crate::names::contents_key(), value);
                    proof {
                        crate::object::lemma_pairs_values_set(before_page, dict_pairs(page), crate::names::contents_bytes(), value);
                        lemma_dictionary_value(page);
                    }
                    self.objects.insert(target, Object::Dictionary(page));
                }
            },
            _ => {},
        }
    }
}

} // verus!

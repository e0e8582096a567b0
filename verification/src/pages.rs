//! The pages of a document: the page tree that the catalog's /Pages roots,
//! and what each page holds (its content streams, resources and
//! annotations).

use std::collections::BTreeMap;
use vstd::prelude::*;
use crate::document::{Document, object_of, DEREF_LIMIT};
use crate::error::Error;
use crate::object::{Object, ObjectId, Dictionary, Stream, entries_get, variant_name};
use crate::names::{root_bytes, root_key, pages_bytes, pages_key, page_bytes, kids_bytes, kids_key, contents_bytes,
    contents_key, type_bytes, annots_bytes, annots_key, length_bytes, parent_bytes, parent_key, resources_bytes,
    resources_key};
use crate::decode::{stream_decodable, stream_decoded};
use crate::document::deref_from;
use crate::object::{PdfValue, entries_set, values_of, pairs_values, dict_pairs, clone_object, clone_dictionary};

verus! {

broadcast use vstd::std_specs::btree::group_btree_axioms;

/// The deepest nesting of page tree nodes that is followed.
pub const PAGE_TREE_DEPTH_LIMIT: usize = 256;

/// The dictionary that the entry `key` of `entries` refers to.
pub open spec fn dict_in(objects: Map<ObjectId, Object>, entries: Seq<(Seq<u8>, Object)>, key: Seq<u8>)
    -> Option<Dictionary>
{
    match entries_get(entries, key) {
        Some(Object::Reference(id)) => match object_of(objects, id) {
            Ok(Object::Dictionary(d)) => Some(d),
            _ => None,
        },
        _ => None,
    }
}

/// Whether object `id` is a page: a dictionary whose /Type is `Page`.
pub open spec fn is_page(objects: Map<ObjectId, Object>, id: ObjectId) -> bool {
    object_of(objects, id) matches Ok(Object::Dictionary(d))
        && entries_get(d@, type_bytes()) matches Some(Object::Name(n)) && n@ == page_bytes()
}

/// The /Kids array of the page tree node `id`, where it is a dictionary
/// whose /Kids is an array.
pub open spec fn node_kids(objects: Map<ObjectId, Object>, id: ObjectId) -> Option<Vec<Object>> {
    match object_of(objects, id) {
        Ok(Object::Dictionary(d)) => match entries_get(d@, kids_bytes()) {
            Some(Object::Array(a)) => Some(a),
            _ => None,
        },
        _ => None,
    }
}

/// What a kid of a /Kids array is: 1 for a reference to a page, 2 for a
/// reference to a /Pages node, 0 for anything else.
pub open spec fn kid_kind(objects: Map<ObjectId, Object>, kid: Object) -> int {
    match kid {
        Object::Reference(id) => match object_of(objects, id) {
            Ok(Object::Dictionary(d)) => match entries_get(d@, type_bytes()) {
                Some(Object::Name(t)) => if t@ == page_bytes() {
                    1
                } else if t@ == pages_bytes() {
                    2
                } else {
                    0
                },
                _ => 0,
            },
            _ => 0,
        },
        _ => 0,
    }
}

/// The start of the /Kids array of node `id`.
pub open spec fn kids_start(objects: Map<ObjectId, Object>, id: ObjectId) -> Option<(Seq<Object>, int)> {
    match node_kids(objects, id) {
        Some(a) => Some((a@, 0)),
        None => None,
    }
}

/// The pages that the walk of the page tree lists from a state: `kids`, the
/// array being visited and the index of its next kid; `stack`, the rest of
/// the arrays of the nodes above, to go back to; `limit`, the kids that may
/// still be visited. A page is listed; a /Pages node is descended into where
/// fewer than 256 arrays wait on the stack, else passed over.
pub open spec fn page_walk(objects: Map<ObjectId, Object>, kids: Option<(Seq<Object>, int)>,
    stack: Seq<(Seq<Object>, int)>, limit: nat) -> Seq<ObjectId>
    decreases limit, stack.len(),
{
    let live = match kids {
        Some(k) => 0 <= k.1 < k.0.len(),
        None => false,
    };
    if live {
        let arr = kids->Some_0.0;
        let i = kids->Some_0.1;
        if limit == 0 {
            Seq::empty()
        } else {
            let rest = Some((arr, i + 1));
            let kind = kid_kind(objects, arr[i]);
            if kind == 1 {
                seq![arr[i]->Reference_0] + page_walk(objects, rest, stack, (limit - 1) as nat)
            } else if kind == 2 && stack.len() < PAGE_TREE_DEPTH_LIMIT {
                let stack2 = if i + 1 < arr.len() { stack.push((arr, i + 1)) } else { stack };
                page_walk(objects, kids_start(objects, arr[i]->Reference_0), stack2, (limit - 1) as nat)
            } else {
                page_walk(objects, rest, stack, (limit - 1) as nat)
            }
        }
    } else if stack.len() == 0 {
        Seq::empty()
    } else {
        page_walk(objects, Some(stack.last()), stack.drop_last(), limit)
    }
}

/// The kids of the page tree's root: the /Kids of the node that the
/// catalog's /Pages refers to.
pub open spec fn root_kids(objects: Map<ObjectId, Object>, trailer: Seq<(Seq<u8>, Object)>) -> Option<(Seq<Object>, int)> {
    match dict_in(objects, trailer, root_bytes()) {
        Some(cat) => match entries_get(cat@, pages_bytes()) {
            Some(Object::Reference(id)) => kids_start(objects, id),
            _ => None,
        },
        None => None,
    }
}

/// The state of the walk as values.
pub open spec fn kids_view(k: Option<(&Vec<Object>, usize)>) -> Option<(Seq<Object>, int)> {
    match k {
        Some((a, i)) => Some((a@, i as int)),
        None => None,
    }
}

/// The stack of the walk as values.
pub open spec fn stack_view(s: Seq<(&Vec<Object>, usize)>) -> Seq<(Seq<Object>, int)> {
    Seq::new(s.len(), |j: int| (s[j].0@, s[j].1 as int))
}

/// Pages numbered from 1 in the order of `pages`.
pub open spec fn numbered(pages: Seq<ObjectId>) -> Map<u32, ObjectId> {
    Map::new(|n: u32| 1 <= n <= pages.len(), |n: u32| pages[n - 1])
}

impl Document {
    /// The dictionary that the entry `key` of `node` refers to.
    pub fn get_dict_in_dict<'a>(&'a self, node: &'a Dictionary, key: &[u8]) -> (r: Result<&'a Dictionary, Error>)
        ensures
            match dict_in(self.objects@, node@, key@) {
                Some(d) => r matches Ok(d2) && *d2 == d,
                None => r is Err,
            },
    {
        match node.get(key) {
            Ok(o) => match o.as_reference() {
                Ok(id) => self.get_dictionary(id),
                Err(e) => Err(e),
            },
            Err(e) => Err(e),
        }
    }

    /// The document catalog: the dictionary that the trailer's /Root refers
    /// to.
    pub fn catalog(&self) -> (r: Result<&Dictionary, Error>)
        ensures
            match dict_in(self.objects@, self.trailer@, root_bytes()) {
                Some(d) => r matches Ok(d2) && *d2 == d,
                None => r is Err,
            },
    {
        self.get_dict_in_dict(&self.trailer, root_key().as_slice())
    }

    /// The /Kids array of the page tree node `id`.
    fn page_kids(&self, id: ObjectId) -> (r: Option<&Vec<Object>>)
        ensures
            match node_kids(self.objects@, id) {
                Some(a) => r matches Some(b) && *b == a,
                None => r is None,
            },
    {
        match self.get_dictionary(id) {
            Ok(d) => match d.get(kids_key().as_slice()) {
                Ok(Object::Array(a)) => Some(a),
                _ => None,
            },
            Err(_) => None,
        }
    }

    /// The pages of the document in the order of the page tree: each /Kids
    /// entry that refers to a page is a page, each that refers to a /Pages
    /// node has its kids visited in its place, at most 256 nodes deep; no
    /// more kids are visited than the document has objects.
    pub fn page_iter(&self) -> (r: Vec<ObjectId>)
        ensures
            r@ == page_walk(self.objects@, root_kids(self.objects@, self.trailer@), Seq::empty(), self.objects@.len()),
            forall|i: int| 0 <= i < r@.len() ==> #[trigger] is_page(self.objects@, r@[i]),
            r@.len() <= self.objects@.len(),
    {
        let mut pages: Vec<ObjectId> = Vec::new();
        let root: Option<ObjectId> = match self.catalog() {
            Ok(cat) => match cat.get(pages_key().as_slice()) {
                Ok(Object::Reference(id)) => Some(*id),
                _ => None,
            },
            Err(_) => None,
        };
        let mut kids: Option<(&Vec<Object>, usize)> = match root {
            Some(id) => match self.page_kids(id) {
                Some(a) => Some((a, 0)),
                None => None,
            },
            None => None,
        };
        let mut stack: Vec<(&Vec<Object>, usize)> = Vec::new();
        let mut limit: usize = self.objects.len();
        let page_name = vec![80u8, 97, 103, 101];
        let pages_name = vec![80u8, 97, 103, 101, 115];
        assert(page_name@ =~= page_bytes());
        assert(pages_name@ =~= pages_bytes());
        let ghost total = page_walk(self.objects@, root_kids(self.objects@, self.trailer@), Seq::empty(), self.objects@.len());
        assert(stack_view(stack@) =~= Seq::<(Seq<Object>, int)>::empty());
        loop
            invariant
                page_name@ == page_bytes(),
                pages_name@ == pages_bytes(),
                pages.len() + limit <= self.objects@.len(),
                forall|i: int| 0 <= i < pages@.len() ==> #[trigger] is_page(self.objects@, pages@[i]),
                pages@ + page_walk(self.objects@, kids_view(kids), stack_view(stack@), limit as nat) == total,
            ensures
                pages@ == total,
            decreases limit, stack@.len(),
        {
            proof {
                if stack@.len() > 0 {
                    assert(stack_view(stack@.drop_last()) =~= stack_view(stack@).drop_last());
                }
            }
            let (arr, i) = match kids {
                Some((arr, i)) => {
                    if i < arr.len() {
                        (arr, i)
                    } else {
                        match stack.pop() {
                            Some(k) => {
                                kids = Some(k);
                                continue;
                            },
                            None => {
                                break;
                            },
                        }
                    }
                },
                None => match stack.pop() {
                    Some(k) => {
                        kids = Some(k);
                        continue;
                    },
                    None => {
                        break;
                    },
                },
            };
            if limit == 0 {
                break;
            }
            limit = limit - 1;
            kids = Some((arr, i + 1));
            match &arr[i] {
                Object::Reference(kid_id) => match self.get_dictionary(*kid_id) {
                    Ok(d) => match d.get(crate::names::type_key().as_slice()) {
                        Ok(Object::Name(t)) => {
                            if crate::object::bytes_equal(t.as_slice(), page_name.as_slice()) {
                                pages.push(*kid_id);
                            } else if crate::object::bytes_equal(t.as_slice(), pages_name.as_slice()) {
                                if stack.len() < PAGE_TREE_DEPTH_LIMIT {
                                    let ghost before = stack@;
                                    if i + 1 < arr.len() {
                                        stack.push((arr, i + 1));
                                        assert(stack_view(stack@) =~= stack_view(before).push((arr@, i + 1)));
                                    }
                                    kids = match self.page_kids(*kid_id) {
                                        Some(a) => Some((a, 0)),
                                        None => None,
                                    };
                                }
                            }
                        },
                        _ => {},
                    },
                    Err(_) => {},
                },
                _ => {},
            }
        }
        pages
    }

    /// The pages numbered from 1 in the order of the page tree.
    pub fn get_pages(&self) -> (r: BTreeMap<u32, ObjectId>)
        requires
            self.objects@.len() <= u32::MAX,
        ensures
            exists|pages: Seq<ObjectId>| #![trigger numbered(pages)] r@ == numbered(pages)
                && pages.len() <= self.objects@.len()
                && forall|i: int| 0 <= i < pages.len() ==> #[trigger] is_page(self.objects@, pages[i]),
            r@ == numbered(page_walk(self.objects@, root_kids(self.objects@, self.trailer@), Seq::empty(),
                self.objects@.len())),
    {
        let list = self.page_iter();
        let mut out: BTreeMap<u32, ObjectId> = BTreeMap::new();
        let mut i: usize = 0;
        while i < list.len()
            invariant
                i <= list@.len(),
                list@.len() <= u32::MAX,
                out@ == numbered(list@.subrange(0, i as int)),
            decreases list@.len() - i,
        {
            let n = (i + 1) as u32;
            out.insert(n, list[i]);
            i = i + 1;
            assert(out@ =~= numbered(list@.subrange(0, i as int)));
        }
        assert(list@.subrange(0, list@.len() as int) =~= list@);
        out
    }
}

/// The pages of a flat page tree are listed in the order of its /Kids:
/// where every kid from the `i`-th on refers to a page, and the walk may
/// still visit them all, it lists exactly the pages they refer to, in order.
pub proof fn lemma_flat_kids_in_order(objects: Map<ObjectId, Object>, arr: Seq<Object>, i: int, limit: nat)
    requires
        0 <= i <= arr.len(),
        arr.len() - i <= limit,
        forall|j: int| i <= j < arr.len() ==> #[trigger] kid_kind(objects, arr[j]) == 1,
    ensures
        page_walk(objects, Some((arr, i)), Seq::empty(), limit).len() == arr.len() - i,
        forall|j: int| 0 <= j < arr.len() - i ==> arr[i + j]
            == Object::Reference(#[trigger] page_walk(objects, Some((arr, i)), Seq::empty(), limit)[j]),
    decreases arr.len() - i,
{
    if i < arr.len() {
        assert(kid_kind(objects, arr[i]) == 1);
        lemma_flat_kids_in_order(objects, arr, i + 1, (limit - 1) as nat);
        let rest = page_walk(objects, Some((arr, i + 1)), Seq::empty(), (limit - 1) as nat);
        assert(page_walk(objects, Some((arr, i)), Seq::empty(), limit) == seq![arr[i]->Reference_0] + rest);
        assert forall|j: int| 0 <= j < arr.len() - i implies arr[i + j]
            == Object::Reference(#[trigger] page_walk(objects, Some((arr, i)), Seq::empty(), limit)[j]) by {
            assert(kid_kind(objects, arr[i + j]) == 1);
            if j > 0 {
                assert(rest[j - 1] == page_walk(objects, Some((arr, i)), Seq::empty(), limit)[j]);
                assert(arr[(i + 1) + (j - 1)] == arr[i + j]);
            }
        }
    }
}

/// Pages are numbered in page-tree order: where every kid of the root of
/// the page tree refers to a page and the document has at least as many
/// objects as kids, page `n` (from 1) of the numbering that `get_pages`
/// gives is the page that the `n`-th kid refers to, and there are as many
/// pages as kids.
pub proof fn lemma_pages_numbered_in_kids_order(objects: Map<ObjectId, Object>, trailer: Seq<(Seq<u8>, Object)>,
    arr: Seq<Object>)
    requires
        root_kids(objects, trailer) == Some((arr, 0int)),
        arr.len() <= objects.len(),
        forall|j: int| 0 <= j < arr.len() ==> #[trigger] kid_kind(objects, arr[j]) == 1,
    ensures
        numbered(page_walk(objects, root_kids(objects, trailer), Seq::empty(), objects.len())).dom()
            == Set::new(|n: u32| 1 <= n <= arr.len()),
        forall|n: u32| 1 <= n <= arr.len() ==> arr[n - 1]
            == Object::Reference(#[trigger] numbered(page_walk(objects, root_kids(objects, trailer), Seq::empty(),
                objects.len()))[n]),
{
    lemma_flat_kids_in_order(objects, arr, 0, objects.len());
    let w = page_walk(objects, Some((arr, 0int)), Seq::empty(), objects.len());
    assert(numbered(w).dom() =~= Set::new(|n: u32| 1 <= n <= arr.len()));
    assert forall|n: u32| 1 <= n <= arr.len() implies arr[n - 1] == Object::Reference(#[trigger] numbered(w)[n]) by {
        assert(w[0 + (n - 1)] == w[n - 1]);
        assert(arr[0 + (n - 1)] == arr[n - 1]);
    }
}

/// The identifiers that the references among `items` give, in order.
pub open spec fn references_in(items: Seq<Object>) -> Seq<ObjectId>
    decreases items.len(),
{
    if items.len() == 0 {
        Seq::empty()
    } else {
        references_in(items.drop_last()) + match items.last() {
            Object::Reference(id) => seq![id],
            _ => Seq::empty(),
        }
    }
}

/// The content streams that a /Contents value `contents` names, `n`
/// references followed so far: a reference to a stream, or to no object,
/// names it; a reference to another object is followed, fewer than
/// `DEREF_LIMIT` times; an array names the objects its references refer to.
pub open spec fn contents_ids(objects: Map<ObjectId, Object>, contents: Object, n: int) -> Seq<ObjectId>
    decreases DEREF_LIMIT - n,
{
    match contents {
        Object::Reference(id) => if !objects.contains_key(id) || objects[id] is Stream {
            seq![id]
        } else if 0 <= n && n + 1 < DEREF_LIMIT {
            contents_ids(objects, objects[id], n + 1)
        } else {
            Seq::empty()
        },
        Object::Array(arr) => references_in(arr@),
        _ => Seq::empty(),
    }
}

/// The content streams of page `page_id`, as its /Contents names them.
pub open spec fn page_contents(objects: Map<ObjectId, Object>, page_id: ObjectId) -> Seq<ObjectId> {
    match object_of(objects, page_id) {
        Ok(Object::Dictionary(page)) => match entries_get(page@, contents_bytes()) {
            Some(c) => contents_ids(objects, c, 0),
            None => Seq::empty(),
        },
        _ => Seq::empty(),
    }
}

/// The bytes that stream `id` adds to a page's content: its data decoded
/// where its filters decode, else its data as it is; nothing where `id` is no
/// stream.
pub open spec fn content_piece(objects: Map<ObjectId, Object>, id: ObjectId) -> Option<Seq<u8>> {
    match object_of(objects, id) {
        Ok(Object::Stream(st)) => Some(if stream_decodable(st.dict@) {
            match stream_decoded(st.dict@, st.content@, None) {
                Some(Ok(d)) => d,
                _ => st.content@,
            }
        } else {
            st.content@
        }),
        _ => None,
    }
}

/// Whether any of `pieces` is there.
pub open spec fn any_piece(pieces: Seq<Option<Seq<u8>>>) -> bool
    decreases pieces.len(),
{
    pieces.len() > 0 && (pieces.last() is Some || any_piece(pieces.drop_last()))
}

/// The pieces that are there, one after the other, with a line feed between
/// two of them.
pub open spec fn lines_joined(pieces: Seq<Option<Seq<u8>>>) -> Seq<u8>
    decreases pieces.len(),
{
    if pieces.len() == 0 {
        Seq::empty()
    } else {
        match pieces.last() {
            Some(b) => if any_piece(pieces.drop_last()) {
                lines_joined(pieces.drop_last()) + seq![10u8] + b
            } else {
                lines_joined(pieces.drop_last()) + b
            },
            None => lines_joined(pieces.drop_last()),
        }
    }
}

/// The content of page `page_id` as `get_page_content` makes it: the pieces
/// of its content streams in the order /Contents gives them, with a line
/// feed between two streams.
pub open spec fn page_content(objects: Map<ObjectId, Object>, page_id: ObjectId) -> Seq<u8> {
    lines_joined(Seq::new(page_contents(objects, page_id).len(), |i: int| content_piece(objects, page_contents(objects, page_id)[i])))
}

/// The annotation dictionaries that `items` hold, in order: a dictionary
/// written into the array, or the dictionary that a reference refers to; a
/// reference to anything else, or to nothing, and any other item are passed
/// over.
pub open spec fn annot_dicts(objects: Map<ObjectId, Object>, items: Seq<Object>) -> Seq<Dictionary>
    decreases items.len(),
{
    if items.len() == 0 {
        Seq::empty()
    } else {
        annot_dicts(objects, items.drop_last()) + match items.last() {
            Object::Reference(id) => match object_of(objects, id) {
                Ok(Object::Dictionary(d)) => seq![d],
                _ => Seq::empty(),
            },
            Object::Dictionary(d) => seq![d],
            _ => Seq::empty(),
        }
    }
}

/// The annotations of page `page_id`: the dictionaries that its /Annots
/// array refers to, that array given directly or by reference. Nothing
/// where /Annots refers to something other than an array.
pub open spec fn page_annotations(objects: Map<ObjectId, Object>, page_id: ObjectId) -> Result<Seq<Dictionary>, Error> {
    match object_of(objects, page_id) {
        Ok(Object::Dictionary(page)) => match entries_get(page@, annots_bytes()) {
            Some(Object::Reference(id)) => match object_of(objects, id) {
                Ok(Object::Array(a)) => Ok(annot_dicts(objects, a@)),
                Ok(o) => Err(Error::ObjectType { expected: "Array", found: variant_name(o) }),
                Err(e) => Err(e),
            },
            Some(Object::Array(a)) => Ok(annot_dicts(objects, a@)),
            _ => Ok(Seq::empty()),
        },
        _ => Ok(Seq::empty()),
    }
}

impl Document {
    /// The content streams of a page, as its /Contents names them.
    pub fn get_page_contents(&self, page_id: ObjectId) -> (r: Vec<ObjectId>)
        ensures
            r@ == page_contents(self.objects@, page_id),
    {
        let mut streams: Vec<ObjectId> = Vec::new();
        match self.get_dictionary(page_id) {
            Ok(page) => match page.get(contents_key().as_slice()) {
                Ok(first) => {
                    let mut contents = first;
                    let mut nb_deref: usize = 0;
                    loop
                        invariant_except_break
                            nb_deref < DEREF_LIMIT,
                            streams@.len() == 0,
                            contents_ids(self.objects@, *first, 0) == contents_ids(self.objects@, *contents, nb_deref as int),
                        ensures
                            streams@ == contents_ids(self.objects@, *first, 0),
                        decreases DEREF_LIMIT - nb_deref,
                    {
                        match contents {
                            Object::Reference(id) => match self.objects.get(id) {
                                Some(Object::Stream(_)) => {
                                    streams.push(*id);
                                    break;
                                },
                                None => {
                                    streams.push(*id);
                                    break;
                                },
                                Some(o) => {
                                    if nb_deref + 1 < DEREF_LIMIT {
                                        nb_deref = nb_deref + 1;
                                        contents = o;
                                    } else {
                                        break;
                                    }
                                },
                            },
                            Object::Array(arr) => {
                                let mut i: usize = 0;
                                while i < arr.len()
                                    invariant
                                        i <= arr@.len(),
                                        streams@ == references_in(arr@.subrange(0, i as int)),
                                    decreases arr@.len() - i,
                                {
                                    assert(arr@.subrange(0, i + 1).drop_last() =~= arr@.subrange(0, i as int));
                                    match &arr[i] {
                                        Object::Reference(id) => {
                                            streams.push(*id);
                                        },
                                        _ => {},
                                    }
                                    i = i + 1;
                                }
                                assert(arr@.subrange(0, arr@.len() as int) =~= arr@);
                                break;
                            },
                            _ => {
                                break;
                            },
                        }
                    }
                },
                Err(_) => {},
            },
            Err(_) => {},
        }
        streams
    }

    /// The content of a page: the data of its content streams one after the
    /// other, each decoded where its filters decode.
    pub fn get_page_content(&self, page_id: ObjectId) -> (r: Result<Vec<u8>, Error>)
        ensures
            r matches Ok(v) && v@ == page_content(self.objects@, page_id),
    {
        let mut content: Vec<u8> = Vec::new();
        let ids = self.get_page_contents(page_id);
        let ghost pieces = Seq::new(ids@.len(), |i: int| content_piece(self.objects@, ids@[i]));
        let mut any = false;
        let mut i: usize = 0;
        while i < ids.len()
            invariant
                i <= ids@.len(),
                ids@ == page_contents(self.objects@, page_id),
                pieces == Seq::new(ids@.len(), |i: int| content_piece(self.objects@, ids@[i])),
                content@ == lines_joined(pieces.subrange(0, i as int)),
                any == any_piece(pieces.subrange(0, i as int)),
            decreases ids@.len() - i,
        {
            let ghost before = content@;
            assert(pieces.subrange(0, i + 1).drop_last() =~= pieces.subrange(0, i as int));
            match self.get_object(ids[i]) {
                Ok(Object::Stream(st)) => {
                    proof {
                        crate::decode::lemma_stream_decoded_known(st.dict@, st.content@, None);
                    }
                    let data = if st.is_decodable() {
                        match st.decompressed_content() {
                            Ok(d) => d,
                            Err(_) => crate::object::copy_bytes(&st.content),
                        }
                    } else {
                        crate::object::copy_bytes(&st.content)
                    };
                    if any {
                        content.push(10u8);
                    }
                    let ghost mid = content@;
                    let mut k: usize = 0;
                    while k < data.len()
                        invariant
                            k <= data@.len(),
                            content@ == mid + data@.subrange(0, k as int),
                        decreases data@.len() - k,
                    {
                        content.push(data[k]);
                        k = k + 1;
                        assert(content@ =~= mid + data@.subrange(0, k as int));
                    }
                    assert(data@.subrange(0, data@.len() as int) =~= data@);
                    assert(pieces.subrange(0, i + 1).last() == Some(data@));
                    if any {
                        assert(content@ =~= before + seq![10u8] + data@);
                    } else {
                        assert(content@ =~= before + data@);
                    }
                    any = true;
                },
                _ => {
                    assert(pieces.subrange(0, i + 1).last() is None);
                },
            }
            i = i + 1;
        }
        assert(pieces.subrange(0, ids@.len() as int) =~= pieces);
        Ok(content)
    }

    /// The annotations of a page: the dictionaries that its /Annots refers
    /// to.
    pub fn get_page_annotations(&self, page_id: ObjectId) -> (r: Result<Vec<&Dictionary>, Error>)
        ensures
            match page_annotations(self.objects@, page_id) {
                Ok(dicts) => r matches Ok(v) && v@.len() == dicts.len()
                    && forall|i: int| 0 <= i < dicts.len() ==> *v@[i] == dicts[i],
                Err(e) => r matches Err(e2) && e2 == e,
            },
    {
        let mut annotations: Vec<&Dictionary> = Vec::new();
        let page = match self.get_dictionary(page_id) {
            Ok(page) => page,
            Err(_) => {
                return Ok(annotations);
            },
        };
        let items: &Vec<Object> = match page.get(annots_key().as_slice()) {
            Ok(Object::Reference(id)) => self.get_object(*id)?.as_array()?,
            Ok(Object::Array(a)) => a,
            _ => {
                return Ok(annotations);
            },
        };
        let mut i: usize = 0;
        while i < items.len()
            invariant
                i <= items@.len(),
                annotations@.len() == annot_dicts(self.objects@, items@.subrange(0, i as int)).len(),
                forall|j: int| 0 <= j < annotations@.len() ==> *annotations@[j]
                    == annot_dicts(self.objects@, items@.subrange(0, i as int))[j],
            decreases items@.len() - i,
        {
            assert(items@.subrange(0, i + 1).drop_last() =~= items@.subrange(0, i as int));
            match &items[i] {
                Object::Reference(id) => match self.get_dictionary(*id) {
                    Ok(d) => {
                        annotations.push(d);
                    },
                    Err(_) => {},
                },
                Object::Dictionary(d) => {
                    annotations.push(d);
                },
                _ => {},
            }
            i = i + 1;
        }
        assert(items@.subrange(0, items@.len() as int) =~= items@);
        Ok(annotations)
    }
}

/// The page tree node that the /Parent of `d` refers to.
pub open spec fn parent_of(objects: Map<ObjectId, Object>, d: Dictionary) -> Option<Dictionary> {
    dict_in(objects, d@, parent_bytes())
}

/// Whether the chain of /Parent nodes from `d` ends within `n` steps.
pub open spec fn parents_end(objects: Map<ObjectId, Object>, d: Dictionary, n: nat) -> bool
    decreases n,
{
    match parent_of(objects, d) {
        None => true,
        Some(p) => n > 0 && parents_end(objects, p, (n - 1) as nat),
    }
}

/// The resource dictionaries that `d` and the nodes above it refer to by
/// their /Resources, nearest first, following at most `n` parents.
pub open spec fn resource_ids(objects: Map<ObjectId, Object>, d: Dictionary, n: nat) -> Seq<ObjectId>
    decreases n,
{
    (match entries_get(d@, resources_bytes()) {
        Some(Object::Reference(id)) => seq![id],
        _ => Seq::empty(),
    }) + match parent_of(objects, d) {
        Some(p) => if n > 0 { resource_ids(objects, p, (n - 1) as nat) } else { Seq::empty() },
        None => Seq::empty(),
    }
}

/// Where the chain of parents ends within `n` and within `m` steps, the
/// resources gathered along it are the same.
pub proof fn lemma_resource_ids_stable(objects: Map<ObjectId, Object>, d: Dictionary, n: nat, m: nat)
    requires
        parents_end(objects, d, n),
        parents_end(objects, d, m),
    ensures
        resource_ids(objects, d, n) == resource_ids(objects, d, m),
    decreases n,
{
    match parent_of(objects, d) {
        Some(p) => {
            lemma_resource_ids_stable(objects, p, (n - 1) as nat, (m - 1) as nat);
        },
        None => {},
    }
}

/// The direct /Resources dictionary of a page.
pub open spec fn direct_resources(d: Dictionary) -> Option<Dictionary> {
    match entries_get(d@, resources_bytes()) {
        Some(Object::Dictionary(r)) => Some(r),
        _ => None,
    }
}

/// The first of `pages` whose /Annots array refers to object `id`; nothing
/// where none does, or where an earlier page is no dictionary or has no
/// /Annots array.
pub open spec fn object_page_among(objects: Map<ObjectId, Object>, pages: Seq<ObjectId>, id: ObjectId) -> Option<ObjectId>
    decreases pages.len(),
{
    if pages.len() == 0 {
        None
    } else {
        match object_of(objects, pages[0]) {
            Ok(Object::Dictionary(d)) => match entries_get(d@, annots_bytes()) {
                Some(Object::Array(a)) => if exists|i: int| 0 <= i < a@.len() && a@[i] == Object::Reference(id) {
                    Some(pages[0])
                } else {
                    object_page_among(objects, pages.drop_first(), id)
                },
                _ => None,
            },
            _ => None,
        }
    }
}

/// Whether the /Annots array of page `p` refers to object `id`.
pub open spec fn annotates(objects: Map<ObjectId, Object>, p: ObjectId, id: ObjectId) -> bool {
    &&& object_of(objects, p) matches Ok(Object::Dictionary(d))
    &&& entries_get(d@, annots_bytes()) matches Some(Object::Array(a))
    &&& exists|i: int| 0 <= i < a@.len() && a@[i] == Object::Reference(id)
}

impl Document {
    fn collect_resources(&self, node: &Dictionary, ids: &mut Vec<ObjectId>, Ghost(n): Ghost<nat>)
        requires
            parents_end(self.objects@, *node, n),
        ensures
            final(ids)@ == old(ids)@ + resource_ids(self.objects@, *node, n),
        decreases n,
    {
        let ghost start = ids@;
        match node.get(resources_key().as_slice()) {
            Ok(Object::Reference(id)) => {
                ids.push(*id);
            },
            _ => {},
        }
        
        match self.get_dict_in_dict(node, parent_key().as_slice()) {
            Ok(parent) => {
                self.collect_resources(parent, ids, Ghost((n - 1) as nat));
            },
            Err(_) => {},
        }
        assert(ids@ =~= start + resource_ids(self.objects@, *node, n));
    }

    /// The resources of a page: its /Resources dictionary where it holds
    /// one directly, and the resource dictionaries that it and the page tree
    /// nodes above it refer to, nearest first.
    pub fn get_page_resources(&self, page_id: ObjectId) -> (r: (Option<&Dictionary>, Vec<ObjectId>))
        requires
            object_of(self.objects@, page_id) matches Ok(Object::Dictionary(page)) ==> exists|n: nat| parents_end(self.objects@,
                page, n),
        ensures
            match object_of(self.objects@, page_id) {
                Ok(Object::Dictionary(page)) => {
                    &&& match direct_resources(page) {
                        Some(d) => r.0 matches Some(d2) && *d2 == d,
                        None => r.0 is None,
                    }
                    &&& forall|n: nat| #[trigger] parents_end(self.objects@, page, n) ==> r.1@ == resource_ids(self.objects@, page, n)
                },
                _ => r.0 is None && r.1@.len() == 0,
            },
    {
        let mut resource_dict: Option<&Dictionary> = None;
        let mut ids: Vec<ObjectId> = Vec::new();
        match self.get_dictionary(page_id) {
            Ok(page) => {
                resource_dict = match page.get(resources_key().as_slice()) {
                    Ok(Object::Dictionary(d)) => Some(d),
                    _ => None,
                };
                let ghost n = choose|n: nat| parents_end(self.objects@, *page, n);
                self.collect_resources(page, &mut ids, Ghost(n));
                proof {
                    assert(ids@ =~= resource_ids(self.objects@, *page, n));
                    assert forall|m: nat| #[trigger] parents_end(self.objects@, *page, m) implies ids@ == resource_ids(self.objects@, *page, m) by {
                        lemma_resource_ids_stable(self.objects@, *page, n, m);
                    }
                }
            },
            Err(_) => {},
        }
        (resource_dict, ids)
    }

    /// The page whose /Annots array refers to object `id`, among the pages in
    /// the order of the page tree.
    pub fn get_object_page(&self, id: ObjectId) -> (r: Result<ObjectId, Error>)
        ensures
            match object_page_among(self.objects@, page_walk(self.objects@, root_kids(self.objects@, self.trailer@),
                Seq::empty(), self.objects@.len()), id) {
                Some(p) => r == Ok::<ObjectId, Error>(p),
                None => r is Err,
            },
            r matches Ok(p) ==> is_page(self.objects@, p) && annotates(self.objects@, p, id),
    {
        let pages = self.page_iter();
        let mut k: usize = 0;
        assert(pages@.subrange(0, pages@.len() as int) =~= pages@);
        while k < pages.len()
            invariant
                k <= pages@.len(),
                forall|i: int| 0 <= i < pages@.len() ==> #[trigger] is_page(self.objects@, pages@[i]),
                object_page_among(self.objects@, pages@.subrange(k as int, pages@.len() as int), id)
                    == object_page_among(self.objects@, pages@, id),
                pages@ == page_walk(self.objects@, root_kids(self.objects@, self.trailer@), Seq::empty(), self.objects@.len()),
            decreases pages@.len() - k,
        {
            let page_id = pages[k];
            assert(is_page(self.objects@, pages@[k as int]));
            assert(pages@.subrange(k as int, pages@.len() as int).drop_first() =~= pages@.subrange(k + 1, pages@.len() as int));
            let ghost sub = pages@.subrange(k as int, pages@.len() as int);
            assert(sub[0] == page_id);
            assert(sub.len() > 0);
            assert(object_page_among(self.objects@, sub, id) == match object_of(self.objects@, page_id) {
                Ok(Object::Dictionary(d)) => match entries_get(d@, annots_bytes()) {
                    Some(Object::Array(a)) => if exists|i: int| 0 <= i < a@.len() && a@[i] == Object::Reference(id) {
                        Some(page_id)
                    } else {
                        object_page_among(self.objects@, sub.drop_first(), id)
                    },
                    _ => None,
                },
                _ => None,
            });
            let page = self.get_object(page_id)?.as_dict()?;
            let annots = match page.get(annots_key().as_slice()) {
                Ok(Object::Array(a)) => a,
                Ok(o) => {
                    assert(object_page_among(self.objects@, sub, id) is None);
                    return Err(Error::ObjectType { expected: "Array", found: o.enum_variant() });
                },
                Err(e) => {
                    assert(object_page_among(self.objects@, sub, id) is None);
                    return Err(e);
                },
            };
            let mut i: usize = 0;
            while i < annots.len()
                invariant
                    i <= annots@.len(),
                    sub.len() > 0,
                    sub[0] == page_id,
                    object_page_among(self.objects@, sub, id) == object_page_among(self.objects@, pages@, id),
                    pages@ == page_walk(self.objects@, root_kids(self.objects@, self.trailer@), Seq::empty(), self.objects@.len()),
                    k < pages@.len(),
                    page_id == pages@[k as int],
                    is_page(self.objects@, page_id),
                    object_of(self.objects@, page_id) == Ok::<Object, Error>(Object::Dictionary(*page)),
                    entries_get(page@, annots_bytes()) == Some(Object::Array(*annots)),
                    forall|j: int| 0 <= j < i ==> annots@[j] != Object::Reference(id),
                decreases annots@.len() - i,
            {
                match &annots[i] {
                    Object::Reference(r) => {
                        if r.0 == id.0 && r.1 == id.1 {
                            assert(annots@[i as int] == Object::Reference(id));
                            assert(annotates(self.objects@, page_id, id));
                            return Ok(page_id);
                        }
                    },
                    _ => {},
                }
                i = i + 1;
            }
            k = k + 1;
        }
        assert(pages@.subrange(k as int, pages@.len() as int).len() == 0);
        Err(Error::ObjectNotFound)
    }
}

/// The object that page `page_id` is in the end: the last object that the
/// chain of references from it reaches, or itself.
pub open spec fn page_target(objects: Map<ObjectId, Object>, page_id: ObjectId) -> ObjectId {
    match deref_from(objects, objects[page_id], None, 0) {
        Ok((Some(t), _)) => t,
        _ => page_id,
    }
}

/// The last reference that following `o` reaches names an object.
pub proof fn lemma_deref_target(objects: Map<ObjectId, Object>, o: Object, id: Option<ObjectId>, n: int)
    requires
        id matches Some(i) ==> objects.contains_key(i),
    ensures
        deref_from(objects, o, id, n) matches Ok((Some(t), _)) ==> objects.contains_key(t),
    decreases DEREF_LIMIT - n,
{
    match o {
        Object::Reference(r) => if objects.contains_key(r) && !(n + 1 > DEREF_LIMIT || n < 0) {
            lemma_deref_target(objects, objects[r], Some(r), n + 1);
        },
        _ => {},
    }
}

/// The content streams that a page's /Contents lists before one is added:
/// the one it refers to, or the items of its array.
pub open spec fn listed_contents(page: Seq<(Seq<u8>, PdfValue)>) -> Seq<PdfValue> {
    match entries_get(page, contents_bytes()) {
        Some(PdfValue::Reference(n, g)) => seq![PdfValue::Reference(n, g)],
        Some(PdfValue::Array(a)) => a,
        _ => Seq::empty(),
    }
}

impl Document {
    /// Adds a content stream holding `content` to a page, after the ones it
    /// has: the stream becomes a new object, and the page's /Contents an
    /// array that ends with a reference to it.
    pub fn add_page_contents(&mut self, page_id: ObjectId, content: Vec<u8>) -> (r: Result<(), Error>)
        requires
            old(self).max_id < u32::MAX,
            !old(self).objects@.contains_key(((old(self).max_id + 1) as u32, 0u16)),
        ensures
            match object_of(old(self).objects@, page_id) {
                Ok(Object::Dictionary(page)) => {
                    let new_id = ((old(self).max_id + 1) as u32, 0u16);
                    let target = page_target(old(self).objects@, page_id);
                    &&& r is Ok
                    &&& final(self).max_id == old(self).max_id + 1
                    &&& final(self).objects@.dom() == old(self).objects@.dom().insert(new_id)
                    &&& final(self).objects@[new_id] matches Object::Stream(st) && st.content@ == content@
                        && st.dict@ == entries_set(Seq::<(Seq<u8>, Object)>::empty(), length_bytes(),
                            Object::Integer(content@.len() as i64))
                    &&& final(self).objects@[target]@ == PdfValue::Dictionary(entries_set(pairs_values(dict_pairs(page)),
                        contents_bytes(), PdfValue::Array(listed_contents(pairs_values(dict_pairs(page))).push(PdfValue::Reference(new_id.0, new_id.1)))))
                    &&& forall|k: ObjectId| #[trigger] old(self).objects@.contains_key(k) && k != target
                        ==> final(self).objects@[k] == old(self).objects@[k]
                    &&& final(self).trailer == old(self).trailer
                },
                _ => r is Err && final(self).objects@ == old(self).objects@ && final(self).max_id == old(self).max_id
                    && final(self).trailer == old(self).trailer,
            },
    {
        let (target, mut page) = match self.objects.get(&page_id) {
            Some(object) => match self.dereference(object) {
                Ok((t, Object::Dictionary(d))) => {
                    let target = match t {
                        Some(x) => x,
                        None => page_id,
                    };
                    (target, clone_dictionary(d))
                },
                _ => {
                    return Err(Error::ObjectNotFound);
                },
            },
            None => {
                return Err(Error::ObjectNotFound);
            },
        };
        proof {
            lemma_deref_target(self.objects@, self.objects@[page_id], None, 0);
        }
        assert(self.objects@.contains_key(target));
        let ghost original = match object_of(self.objects@, page_id) {
            Ok(Object::Dictionary(d)) => d,
            _ => page,
        };
        proof {
            crate::object::lemma_entries_get_values(dict_pairs(page), contents_bytes());
            crate::object::lemma_entries_get_values(dict_pairs(original), contents_bytes());
        }
        let mut list: Vec<Object> = match page.get(contents_key().as_slice()) {
            Ok(Object::Reference(id)) => vec![Object::Reference(*id)],
            Ok(Object::Array(arr)) => {
                let mut out: Vec<Object> = Vec::new();
                let mut i: usize = 0;
                while i < arr.len()
                    invariant
                        i <= arr@.len(),
                        values_of(out@) == values_of(arr@.subrange(0, i as int)),
                    decreases arr@.len() - i,
                {
                    let c = clone_object(&arr[i]);
                    let ghost before = out@;
                    out.push(c);
                    assert(values_of(out@) =~= values_of(before).push(c@));
                    assert(values_of(arr@.subrange(0, i + 1)) =~= values_of(arr@.subrange(0, i as int)).push(arr@[i as int]@));
                    i = i + 1;
                }
                assert(arr@.subrange(0, arr@.len() as int) =~= arr@);
                proof {
                    crate::object::lemma_array_value(*arr);
                }
                out
            },
            _ => Vec::new(),
        };
        assert(values_of(list@) =~= listed_contents(pairs_values(dict_pairs(page))));
        let stream = Stream::new(Dictionary::new(), content);
        let id = self.add_object(Object::Stream(stream));
        let ghost before_list = list@;
        list.push(Object::Reference(id));
        assert(values_of(list@) =~= values_of(before_list).push(PdfValue::Reference(id.0, id.1)));
        let ghost before_page = dict_pairs(page);
        let new_list = Object::Array(list);
        proof {
            crate::object::lemma_array_value(list);
        }
        page.set(contents_key(), new_list);
        proof {
            crate::object::lemma_pairs_values_set(before_page, dict_pairs(page), contents_bytes(), new_list);
            crate::object::lemma_dictionary_value(page);
        }
        self.objects.insert(target, Object::Dictionary(page));
        Ok(())
    }
}

impl Dictionary {
    /// The object that the entry `key` holds, references followed in `doc`.
    pub fn get_deref<'a>(&'a self, key: &[u8], doc: &'a Document) -> (r: Result<&'a Object, Error>)
        ensures
            match entries_get(self@, key@) {
                Some(o) => match deref_from(doc.objects@, o, None, 0) {
                    Ok((_, x)) => r matches Ok(y) && *y == x,
                    Err(e) => r matches Err(e2) && e2 == e,
                },
                None => r is Err,
            },
    {
        match self.get(key) {
            Ok(o) => match doc.dereference(o) {
                Ok((_, x)) => Ok(x),
                Err(e) => Err(e),
            },
            Err(e) => Err(e),
        }
    }
}

impl Document {
    /// The content of a page, decoded into its operations.
    pub fn get_and_decode_page_content(&self, page_id: ObjectId) -> (r: Result<crate::content::Content, Error>)
        ensures
            r matches Ok(c) && crate::content_parser::operations_view(c.operations@)
                == crate::content_parser::spec_content(page_content(self.objects@, page_id)),
    {
        let data = self.get_page_content(page_id)?;
        let c = crate::content::Content::decode(data.as_slice())?;
        Ok(c)
    }

    /// Adds the encoded operations of `content` to a page as a new content
    /// stream, as `add_page_contents` does.
    pub fn add_to_page_content(&mut self, page_id: ObjectId, content: crate::content::Content) -> (r: Result<(), Error>)
        requires
            old(self).max_id < u32::MAX,
            !old(self).objects@.contains_key(((old(self).max_id + 1) as u32, 0u16)),
        ensures
            match object_of(old(self).objects@, page_id) {
                Ok(Object::Dictionary(page)) => {
                    let new_id = ((old(self).max_id + 1) as u32, 0u16);
                    &&& r is Ok
                    &&& final(self).max_id == old(self).max_id + 1
                    &&& final(self).objects@[new_id] matches Object::Stream(st)
                        && st.content@ == crate::content::operations_text(content.operations@, content.operations@.len())
                },
                _ => r is Err && final(self).objects@ == old(self).objects@,
            },
    {
        let data = content.encode()?;
        self.add_page_contents(page_id, data)
    }
}

} // verus!

//! Object streams: many objects stored in one stream, found by the pairs of
//! object numbers and offsets at its start.

use std::collections::BTreeMap;
use vstd::prelude::*;
use vstd::utf8::decode_utf8;
use crate::error::Error;
use crate::object::{Object, ObjectId, PdfValue, Stream, entries_get, missing_key, variant_name};
use crate::parser::{spec_direct_object, direct_object_at};
use crate::names::{first_bytes, first_key, n_count_bytes, n_count_key};
use crate::decode::{stream_decodable, decompressed_as};
use crate::strings::utf8_text;

verus! {

broadcast use vstd::std_specs::btree::group_btree_axioms;

/// The objects of an object stream, by identifier.
#[derive(Debug)]
pub struct ObjectStream {
    pub objects: BTreeMap<ObjectId, Object>,
}

/// White-space as `char::is_whitespace` has it: the characters with
/// Unicode's White_Space property.
pub open spec fn is_unicode_white(c: char) -> bool {
    let v = c as u32;
    (9 <= v <= 13) || v == 32 || v == 0x85 || v == 0xA0 || v == 0x1680 || (0x2000 <= v <= 0x200A) || v == 0x2028
        || v == 0x2029 || v == 0x202F || v == 0x205F || v == 0x3000
}

/// The words of `chars` from position `i` on, split at white-space, after
/// the words `acc` and the word `cur` being read.
pub open spec fn words_from(chars: Seq<char>, i: int, cur: Seq<char>, acc: Seq<Seq<char>>) -> Seq<Seq<char>>
    decreases chars.len() - i,
{
    if i >= chars.len() || i < 0 {
        if cur.len() > 0 { acc.push(cur) } else { acc }
    } else if is_unicode_white(chars[i]) {
        words_from(chars, i + 1, Seq::empty(), if cur.len() > 0 { acc.push(cur) } else { acc })
    } else {
        words_from(chars, i + 1, cur.push(chars[i]), acc)
    }
}

/// The words of `chars`, split at white-space.
pub open spec fn words(chars: Seq<char>) -> Seq<Seq<char>> {
    words_from(chars, 0, Seq::empty(), Seq::empty())
}

/// The value of the decimal digits `t[a..b]`.
pub open spec fn chars_value(t: Seq<char>, a: int, b: int) -> nat
    decreases b - a,
{
    if b <= a { 0 } else { chars_value(t, a, b - 1) * 10 + ((t[b - 1] as u32) - 48) as nat }
}

/// A word read as `u32::from_str` reads it: an optional `+`, then at least
/// one decimal digit and nothing else, of a value that fits in 32 bits.
pub open spec fn word_u32(t: Seq<char>) -> Option<u32> {
    let a: int = if t.len() > 0 && t[0] == '+' { 1 } else { 0 };
    if a >= t.len() || exists|i: int| a <= i < t.len() && !('0' <= #[trigger] t[i] <= '9') {
        None
    } else if chars_value(t, a, t.len() as int) > u32::MAX {
        None
    } else {
        Some(chars_value(t, a, t.len() as int) as u32)
    }
}

/// The objects of the first `k` pairs of `numbers`: for each pair of an
/// object number and an offset from `first`, the direct object there, where
/// the offset falls inside `content`. A later pair replaces an earlier one.
pub open spec fn pair_objects(content: Seq<u8>, first: int, numbers: Seq<Option<u32>>, k: nat) -> Map<ObjectId, PdfValue>
    decreases k,
{
    if k == 0 {
        Map::empty()
    } else {
        let m = pair_objects(content, first, numbers, (k - 1) as nat);
        let i = 2 * (k - 1);
        match (numbers[i], numbers[i + 1]) {
            (Some(id), Some(off)) => {
                let offset = first + off;
                if offset < content.len() {
                    match spec_direct_object(content, offset) {
                        Some((v, _)) => m.insert((id, 0u16), v),
                        None => m,
                    }
                } else {
                    m
                }
            },
            _ => m,
        }
    }
}

/// Whether `objects` holds objects of the values `m`.
pub open spec fn objects_match(objects: Map<ObjectId, Object>, m: Map<ObjectId, PdfValue>) -> bool {
    &&& objects.dom() == m.dom()
    &&& forall|id: ObjectId| #[trigger] objects.contains_key(id) ==> objects[id]@ == m[id]
}

/// The error of an entry that is no integer.
pub open spec fn not_integer(o: Object) -> Error {
    Error::ObjectType { expected: "Integer", found: variant_name(o) }
}

/// What reading the objects after an index of `f` bytes gives: the error of
/// an /N entry that is missing or no integer, else the objects.
pub open spec fn objects_read(dict: Seq<(Seq<u8>, Object)>, content: Seq<u8>, f: int, r: Result<ObjectStream, Error>) -> bool {
    match entries_get(dict, n_count_bytes()) {
        None => r matches Err(e) && missing_key(e, n_count_bytes()),
        Some(Object::Integer(_)) => {
            let w = words(decode_utf8(content.subrange(0, f)));
            let numbers = Seq::new(w.len(), |i: int| word_u32(w[i]));
            r matches Ok(os) && objects_match(os.objects@, pair_objects(content, f, numbers, (numbers.len() / 2) as nat))
        },
        Some(o) => r == Err::<ObjectStream, Error>(not_integer(o)),
    }
}

/// What reading an object stream whose /First is `f` gives.
pub open spec fn first_read(dict: Seq<(Seq<u8>, Object)>, content: Seq<u8>, f: i64, r: Result<ObjectStream, Error>) -> bool {
    if f < 0 || f > usize::MAX {
        r == Err::<ObjectStream, Error>(Error::Offset(0))
    } else if f > content.len() {
        r == Err::<ObjectStream, Error>(Error::Offset(f as usize))
    } else if !vstd::utf8::valid_utf8(content.subrange(0, f as int)) {
        r == Err::<ObjectStream, Error>(Error::UTF8)
    } else {
        objects_read(dict, content, f as int, r)
    }
}

/// What reading an object stream with dictionary `dict` and (decoded)
/// `content` gives: its objects, or the error of its /First or /N entry, of
/// an index that does not fit in the content, or of an index that is no
/// UTF-8 text.
pub open spec fn object_stream_read(dict: Seq<(Seq<u8>, Object)>, content: Seq<u8>, r: Result<ObjectStream, Error>) -> bool {
    if content.len() == 0 {
        r matches Ok(os) && os.objects@ == Map::<ObjectId, Object>::empty()
    } else {
        match entries_get(dict, first_bytes()) {
            None => r matches Err(e) && missing_key(e, first_bytes()),
            Some(Object::Integer(f)) => first_read(dict, content, f, r),
            Some(o) => r == Err::<ObjectStream, Error>(not_integer(o)),
        }
    }
}

/// Splits text into words at white-space, as `str::split_whitespace` does.
fn split_words(text: &String) -> (r: Vec<Vec<char>>)
    ensures
        r@.len() == words(text@).len(),
        forall|i: int| 0 <= i < r@.len() ==> #[trigger] r@[i]@ == words(text@)[i],
{
    let mut out: Vec<Vec<char>> = Vec::new();
    let mut cur: Vec<char> = Vec::new();
    let ghost chars = text@;
    let t = text.as_str();
    proof {
        vstd::string::axiom_spec_iter(t);
    }
    assert(Seq::new(out@.len(), |i: int| out@[i]@) =~= Seq::<Seq<char>>::empty());
    assert(cur@ =~= Seq::<char>::empty());
    for c in it: t.chars()
        invariant
            it.seq() == chars,
            words(chars) == words_from(chars, it.index() as int, cur@,
                Seq::new(out@.len(), |i: int| out@[i]@)),
    {
        let ghost i = it.index() as int;
        let ghost acc = Seq::new(out@.len(), |j: int| out@[j]@);
        assert(chars[i] == c);
        let v = c as u32;
        let white = (9 <= v && v <= 13) || v == 32 || v == 0x85 || v == 0xA0 || v == 0x1680
            || (0x2000 <= v && v <= 0x200A) || v == 0x2028 || v == 0x2029 || v == 0x202F || v == 0x205F || v == 0x3000;
        if white {
            if cur.len() > 0 {
                let word = cur;
                out.push(word);
                cur = Vec::new();
                assert(Seq::new(out@.len(), |j: int| out@[j]@) =~= acc.push(word@));
            }
            assert(cur@ =~= Seq::<char>::empty());
        } else {
            cur.push(c);
        }
    }
    if cur.len() > 0 {
        let ghost acc = Seq::new(out@.len(), |j: int| out@[j]@);
        out.push(cur);
        assert(Seq::new(out@.len(), |j: int| out@[j]@) =~= acc.push(cur@));
    }
    let ghost fin = Seq::new(out@.len(), |j: int| out@[j]@);
    assert(fin =~= words(chars));
    out
}

/// Reads a word as `u32::from_str` does.
fn word_to_u32(t: &Vec<char>) -> (r: Option<u32>)
    ensures
        r == word_u32(t@),
{
    let a: usize = if t.len() > 0 && t[0] == '+' { 1 } else { 0 };
    if a >= t.len() {
        return None;
    }
    let mut i = a;
    while i < t.len()
        invariant
            a <= i <= t@.len(),
            a == (if t@.len() > 0 && t@[0] == '+' { 1int } else { 0int }),
            forall|j: int| a <= j < i ==> '0' <= #[trigger] t@[j] <= '9',
        decreases t@.len() - i,
    {
        let c = t[i];
        if !('0' <= c && c <= '9') {
            assert(!('0' <= t@[i as int] <= '9'));
            return None;
        }
        i = i + 1;
    }
    let mut value: u64 = 0;
    let mut i = a;
    while i < t.len()
        invariant
            a <= i <= t@.len(),
            a < t@.len(),
            a == (if t@.len() > 0 && t@[0] == '+' { 1int } else { 0int }),
            forall|j: int| a <= j < t@.len() ==> '0' <= #[trigger] t@[j] <= '9',
            value == chars_value(t@, a as int, i as int),
            value <= u32::MAX,
        decreases t@.len() - i,
    {
        let c = t[i];
        let d = (c as u32 - 48) as u64;
        let next = value * 10 + d;
        if next > 4294967295u64 {
            proof {
                lemma_chars_value_grows(t@, a as int, i + 1, t@.len() as int);
            }
            return None;
        }
        value = next;
        i = i + 1;
    }
    Some(value as u32)
}

/// A longer run of digits has a value at least as large.
proof fn lemma_chars_value_grows(t: Seq<char>, a: int, b: int, c: int)
    requires
        a <= b <= c <= t.len(),
        forall|j: int| a <= j < c ==> '0' <= #[trigger] t[j] <= '9',
    ensures
        chars_value(t, a, b) <= chars_value(t, a, c),
    decreases c - b,
{
    if b < c {
        lemma_chars_value_grows(t, a, b, c - 1);
        assert('0' <= t[c - 1] <= '9');
    }
}

impl ObjectStream {
    /// Reads the objects of an object stream, after decoding its filters in
    /// place where its decoding parameters allow it.
    pub fn new(stream: &mut Stream) -> (r: Result<ObjectStream, Error>)
        ensures
            if stream_decodable(old(stream).dict@) {
                exists|done: Result<(), Error>| decompressed_as(*old(stream), *final(stream), done, None)
            } else {
                *final(stream) == *old(stream)
            },
            object_stream_read(final(stream).dict@, final(stream).content@, r),
    {
        if stream.is_decodable() {
            let _ = stream.decompress();
        }
        if stream.content.len() == 0 {
            return Ok(ObjectStream { objects: BTreeMap::new() });
        }
        let first = match stream.dict.get(first_key().as_slice()) {
            Ok(o) => match o.as_i64() {
                Ok(v) => v,
                Err(e) => {
                    return Err(e);
                },
            },
            Err(e) => {
                return Err(e);
            },
        };
        if first < 0 || first as u64 > usize::MAX as u64 {
            return Err(Error::Offset(0));
        }
        let first_offset = first as usize;
        let content = &stream.content;
        if first_offset > content.len() {
            return Err(Error::Offset(first_offset));
        }
        let index_block = crate::parser::copy_range(content.as_slice(), 0, first_offset);
        let text = match utf8_text(index_block.as_slice()) {
            Some(t) => t,
            None => {
                return Err(Error::UTF8);
            },
        };
        match stream.dict.get(n_count_key().as_slice()) {
            Ok(o) => match o.as_i64() {
                Ok(_) => {},
                Err(e) => {
                    return Err(e);
                },
            },
            Err(e) => {
                return Err(e);
            },
        }
        let w = split_words(&text);
        let mut numbers: Vec<Option<u32>> = Vec::new();
        let mut i: usize = 0;
        while i < w.len()
            invariant
                i <= w@.len(),
                numbers@.len() == i,
                forall|j: int| 0 <= j < i ==> numbers@[j] == word_u32(#[trigger] w@[j]@),
            decreases w@.len() - i,
        {
            numbers.push(word_to_u32(&w[i]));
            i = i + 1;
        }
        let ghost nums = numbers@;
        proof {
            let wv = words(decode_utf8(stream.content@.subrange(0, first_offset as int)));
            assert(text@ == decode_utf8(stream.content@.subrange(0, first_offset as int)));
            assert(index_block@ == stream.content@.subrange(0, first_offset as int));
            assert(wv == words(text@));
            assert forall|j: int| 0 <= j < nums.len() implies nums[j] == word_u32(wv[j]) by {
                assert(numbers@[j] == word_u32(w@[j]@));
                assert(w@[j]@ == words(text@)[j]);
            }
            assert(nums =~= Seq::new(wv.len(), |j: int| word_u32(wv[j])));
        }
        let pairs = numbers.len() / 2;
        let mut objects: BTreeMap<ObjectId, Object> = BTreeMap::new();
        let mut k: usize = 0;
        while k < pairs
            invariant
                k <= pairs,
                first_offset <= content@.len(),
                pairs == numbers@.len() / 2,
                nums == numbers@,
                objects_match(objects@, pair_objects(content@, first_offset as int, nums, k as nat)),
            decreases pairs - k,
        {
            match (numbers[2 * k], numbers[2 * k + 1]) {
                (Some(id), Some(off)) => {
                    if (off as u64) < (content.len() - first_offset) as u64 {
                        let offset = first_offset + off as usize;
                        match direct_object_at(content.as_slice(), offset) {
                            Some((o, _)) => {
                                objects.insert((id, 0u16), o);
                            },
                            None => {},
                        }
                    }
                },
                _ => {},
            }
            k = k + 1;
        }
        Ok(ObjectStream { objects })
    }
}

} // verus!

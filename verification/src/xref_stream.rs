//! Reading cross-reference streams: binary entries of fixed field widths.

use vstd::prelude::*;
use crate::error::{Error, ParseError};
use crate::object::{Object, Dictionary, Stream, entries_get, entries_remove};
use crate::xref::{Xref, XrefEntry, XrefType};
use crate::names::{size_bytes, size_key, index_bytes, index_key, w_bytes, w_key, length_bytes, length_key,
    filter_bytes};
use crate::decode::{stream_decodable, decompressed_as};

verus! {

broadcast use vstd::std_specs::btree::group_btree_axioms;

/// The integers of an array of integers; nothing for any other object.
pub open spec fn integer_array(o: Object) -> Option<Seq<i64>> {
    match o {
        Object::Array(a) => if forall|i: int| 0 <= i < a@.len() ==> #[trigger] a@[i] is Integer {
            Some(Seq::new(a@.len(), |i: int| a@[i]->Integer_0))
        } else {
            None
        },
        _ => None,
    }
}

/// The big-endian value of `bytes`, keeping the low 32 bits.
pub open spec fn be_value(bytes: Seq<u8>) -> u32
    decreases bytes.len(),
{
    if bytes.len() == 0 {
        0
    } else {
        vstd::wrapping::u32_specs::wrapping_add(
            vstd::wrapping::u32_specs::wrapping_mul(be_value(bytes.drop_last()), 256),
            bytes.last() as u32,
        )
    }
}

/// A field of `width` bytes at `pos`, and the position after it; nothing
/// where the data ends first.
pub open spec fn read_field(data: Seq<u8>, pos: int, width: int) -> Option<(u32, int)> {
    if 0 <= pos && 0 <= width && pos + width <= data.len() {
        Some((be_value(data.subrange(pos, pos + width)), pos + width))
    } else {
        None
    }
}

/// One entry at `pos` with field widths `w`: the entry it gives, if any, and
/// the position after it; nothing where the data ends first. A missing type
/// field means type 1. Type 0 (free) is read and dropped, type 1 is a normal
/// entry (generation 0 where its field is missing), type 2 a compressed one;
/// of other types only the type field is read.
pub open spec fn xref_entry_at(data: Seq<u8>, pos: int, w: (int, int, int)) -> Option<(Option<XrefEntry>, int)> {
    let typed = if w.0 > 0 { read_field(data, pos, w.0) } else { Some((1u32, pos)) };
    match typed {
        None => None,
        Some((t, p1)) => if t == 0 {
            match read_field(data, p1, w.1) {
                None => None,
                Some((_, p2)) => match read_field(data, p2, w.2) {
                    None => None,
                    Some((_, p3)) => Some((None, p3)),
                },
            }
        } else if t == 1 {
            match read_field(data, p1, w.1) {
                None => None,
                Some((offset, p2)) => {
                    let generation = if w.2 > 0 { read_field(data, p2, w.2) } else { Some((0u32, p2)) };
                    match generation {
                        None => None,
                        Some((g, p3)) => Some((Some(XrefEntry::Normal { offset, generation: g as u16 }), p3)),
                    }
                },
            }
        } else if t == 2 {
            match read_field(data, p1, w.1) {
                None => None,
                Some((container, p2)) => match read_field(data, p2, w.2) {
                    None => None,
                    Some((index, p3)) => Some((Some(XrefEntry::Compressed { container, index: index as u16 }), p3)),
                },
            }
        } else {
            Some((None, p1))
        }
    }
}

/// The entries `j..count` of a section that starts at object number
/// `start`, read from `pos` on and inserted into `entries`; and the position
/// after them. Nothing where the data ends first.
pub open spec fn section_entries(
    data: Seq<u8>,
    w: (int, int, int),
    start: i64,
    count: i64,
    j: int,
    pos: int,
    entries: Map<u32, XrefEntry>,
) -> Option<(Map<u32, XrefEntry>, int)>
    decreases count - j,
{
    if j >= count {
        Some((entries, pos))
    } else {
        match xref_entry_at(data, pos, w) {
            None => None,
            Some((e, p)) => {
                let next = match e {
                    Some(entry) => entries.insert((start + j) as u32, entry),
                    None => entries,
                };
                section_entries(data, w, start, count, j + 1, p, next)
            },
        }
    }
}

/// The sections `k..` of `index`, pairs of a first object number and a
/// count, read from `pos` on into `entries`. A last unpaired number is
/// ignored.
pub open spec fn sections_entries(
    data: Seq<u8>,
    w: (int, int, int),
    index: Seq<i64>,
    k: int,
    pos: int,
    entries: Map<u32, XrefEntry>,
) -> Option<Map<u32, XrefEntry>>
    decreases index.len() - 2 * k,
{
    if k < 0 || 2 * k + 1 >= index.len() {
        Some(entries)
    } else {
        match section_entries(data, w, index[2 * k], index[2 * k + 1], 0, pos, entries) {
            None => None,
            Some((e, p)) => sections_entries(data, w, index, k + 1, p, e),
        }
    }
}

/// The sections of a cross-reference stream: its /Index where that is an
/// array of integers, else one section of /Size entries from 0.
pub open spec fn xref_index(dict: Seq<(Seq<u8>, Object)>, size: i64) -> Seq<i64> {
    match entries_get(dict, index_bytes()) {
        Some(o) => match integer_array(o) {
            Some(v) => v,
            None => seq![0i64, size],
        },
        None => seq![0i64, size],
    }
}

/// The field widths of a cross-reference stream: its /W, an array of at
/// least three non-negative integers.
pub open spec fn xref_widths(dict: Seq<(Seq<u8>, Object)>) -> Option<(int, int, int)> {
    match entries_get(dict, w_bytes()) {
        Some(o) => match integer_array(o) {
            Some(v) => if v.len() >= 3 && v[0] >= 0 && v[1] >= 0 && v[2] >= 0 {
                Some((v[0] as usize as int, v[1] as usize as int, v[2] as usize as int))
            } else {
                None
            },
            None => None,
        },
        None => None,
    }
}

/// The /Size of a cross-reference stream, where it is an integer.
pub open spec fn xref_size(dict: Seq<(Seq<u8>, Object)>) -> Option<i64> {
    match entries_get(dict, size_bytes()) {
        Some(Object::Integer(v)) => Some(v),
        _ => None,
    }
}

/// The smallest number of bytes that each entry is taken to hold when the
/// entries are bounded by the length of the data.
pub const MIN_ENTRY_WIDTH: u64 = 2;

/// The sum of the counts of the sections `k..` of `index`.
pub open spec fn index_total(index: Seq<i64>, k: int) -> int
    decreases index.len() - 2 * k,
{
    if k < 0 || 2 * k + 1 >= index.len() {
        0
    } else {
        index[2 * k + 1] + index_total(index, k + 1)
    }
}

/// Whether the sections of `index` have no negative count and their entries,
/// each `width` bytes but at least `MIN_ENTRY_WIDTH`, fit in `len` bytes;
/// entries of no width at all never do.
pub open spec fn index_fits_data(index: Seq<i64>, width: int, len: int) -> bool {
    &&& width > 0
    &&& forall|k: int| 0 <= k && 2 * k + 1 < index.len() ==> #[trigger] index[2 * k + 1] >= 0
    &&& index_total(index, 0) * (if width < MIN_ENTRY_WIDTH { MIN_ENTRY_WIDTH as int } else { width }) <= len
}

/// What the entries of a cross-reference stream with dictionary `dict` and
/// decoded `data` give: the table's entries, or why there are none. The
/// sections must fit in the data: see `index_fits_data`. An error `None`
/// stands for data that ends before an entry does.
pub open spec fn xref_stream_entries(dict: Seq<(Seq<u8>, Object)>, data: Seq<u8>) -> Result<Map<u32, XrefEntry>, Option<Error>> {
    match xref_size(dict) {
        None => Err(Some(Error::Parse(ParseError::InvalidXref))),
        Some(size) => match xref_widths(dict) {
            None => Err(Some(Error::Parse(ParseError::InvalidXref))),
            Some(w) => if !index_fits_data(xref_index(dict, size), w.0 + w.1 + w.2, data.len() as int) {
                Err(Some(Error::Parse(ParseError::InvalidXref)))
            } else {
                match sections_entries(data, w, xref_index(dict, size), 0, 0, Map::empty()) {
                    None => Err(None),
                    Some(entries) => Ok(entries),
                }
            },
        },
    }
}

/// Whether `r` is what decoding the entries gives for `dict` and `data`: the
/// table, of the stream kind with the stream's /Size, and the dictionary
/// without /Length, /W and /Index.
pub open spec fn xref_decoded_as(r: Result<(Xref, Dictionary), Error>, dict: Seq<(Seq<u8>, Object)>, data: Seq<u8>) -> bool {
    match xref_stream_entries(dict, data) {
        Ok(entries) => r matches Ok((xref, d)) && {
            &&& xref.entries@ == entries
            &&& xref.size == xref_size(dict)->0 as u32
            &&& xref.cross_reference_type == XrefType::CrossReferenceStream
            &&& d@ == entries_remove(entries_remove(entries_remove(dict, length_bytes()), w_bytes()), index_bytes())
        },
        Err(Some(e)) => r == Err::<(Xref, Dictionary), Error>(e),
        Err(None) => r matches Err(Error::IO(_)),
    }
}

/// The error of `std::io` for data that ends too soon.
#[verifier::external_body]
fn unexpected_eof() -> (r: std::io::Error)
{
    std::io::Error::from(std::io::ErrorKind::UnexpectedEof)
}

proof fn lemma_index_total_nonneg(index: Seq<i64>, k: int)
    requires
        k >= 0,
        forall|j: int| k <= j && 2 * j + 1 < index.len() ==> #[trigger] index[2 * j + 1] >= 0,
    ensures
        index_total(index, k) >= 0,
    decreases index.len() - 2 * k,
{
    if 2 * k + 1 < index.len() {
        lemma_index_total_nonneg(index, k + 1);
        assert(index[2 * k + 1] >= 0);
    }
}

/// Whether the sections of `index` fit in `len` bytes of entries `width`
/// bytes wide.
fn fits_data(index: &Vec<i64>, width: u128, len: usize) -> (r: bool)
    ensures
        r == index_fits_data(index@, width as int, len as int),
{
    if width == 0 {
        return false;
    }
    let eff: u128 = if width < 2 { 2 } else { width };
    let mut total: u128 = 0;
    let mut k: usize = 0;
    let n = index.len();
    let sections = n / 2;
    while k < sections
        invariant
            n == index@.len(),
            sections == index@.len() / 2,
            k <= sections,
            width > 0,
            eff == (if width < 2 { 2 } else { width }),
            total <= len,
            index_total(index@, 0) == total + index_total(index@, k as int),
            forall|j: int| 0 <= j < k ==> #[trigger] index@[2 * j + 1] >= 0,
        decreases sections - k,
    {
        let c = index[2 * k + 1];
        if c < 0 {
            return false;
        }
        total = total + c as u128;
        if total > len as u128 {
            proof {
                if forall|j: int| 0 <= j && 2 * j + 1 < index@.len() ==> #[trigger] index@[2 * j + 1] >= 0 {
                    lemma_index_total_nonneg(index@, k + 1);
                    assert(index_total(index@, 0) * eff >= index_total(index@, 0)) by (nonlinear_arith)
                        requires
                            index_total(index@, 0) >= 0,
                            eff >= 2,
                    ;
                }
            }
            return false;
        }
        k = k + 1;
    }
    match total.checked_mul(eff) {
        Some(p) => p <= len as u128,
        None => false,
    }
}

/// The integers of an array of integers.
#[verifier::loop_isolation(false)]
fn parse_integer_array(array: &Object) -> (r: Option<Vec<i64>>)
    ensures
        match integer_array(*array) {
            Some(v) => r matches Some(w) && w@ == v,
            None => r is None,
        },
{
    match array {
        Object::Array(items) => {
            let mut out: Vec<i64> = Vec::new();
            let mut i: usize = 0;
            while i < items.len()
                invariant
                    i <= items@.len(),
                    out@.len() == i,
                    forall|j: int| 0 <= j < i ==> #[trigger] items@[j] is Integer && out@[j] == items@[j]->Integer_0,
                decreases items@.len() - i,
            {
                match &items[i] {
                    Object::Integer(v) => out.push(*v),
                    _ => {
                        assert(!(items@[i as int] is Integer));
                        assert(!(forall|j: int| 0 <= j < items@.len() ==> #[trigger] items@[j] is Integer));
                        return None;
                    },
                }
                i = i + 1;
            }
            assert(out@ =~= Seq::new(items@.len(), |j: int| items@[j]->Integer_0));
            Some(out)
        },
        _ => None,
    }
}

/// Reads a big-endian field of `width` bytes at `pos`.
pub fn read_big_endian_integer(data: &[u8], pos: usize, width: usize) -> (r: Option<(u32, usize)>)
    ensures
        match read_field(data@, pos as int, width as int) {
            Some((v, p)) => r matches Some((v2, p2)) && v2 == v && p2 == p,
            None => r is None,
        },
        r matches Some((_, p)) ==> pos <= p <= data@.len(),
{
    let n = data.len();
    assert(n == data@.len());
    if pos > n || width > n - pos {
        return None;
    }
    let mut value: u32 = 0;
    let mut i: usize = 0;
    while i < width
        invariant
            n == data@.len(),
            pos + width <= data@.len(),
            i <= width,
            value == be_value(data@.subrange(pos as int, pos + i)),
        decreases width - i,
    {
        let ghost prefix = data@.subrange(pos as int, pos + i + 1);
        assert(prefix.drop_last() =~= data@.subrange(pos as int, pos + i));
        value = value.wrapping_mul(256).wrapping_add(data[pos + i] as u32);
        i = i + 1;
    }
    assert(data@.subrange(pos as int, pos + width) == data@.subrange(pos as int, pos + i));
    Some((value, pos + width))
}

/// Reads one entry at `pos`.
fn read_entry(data: &[u8], pos: usize, w: (usize, usize, usize)) -> (r: Option<(Option<XrefEntry>, usize)>)
    ensures
        match xref_entry_at(data@, pos as int, (w.0 as int, w.1 as int, w.2 as int)) {
            Some((e, p)) => r matches Some((e2, p2)) && e2 == e && p2 == p,
            None => r is None,
        },
        r matches Some((_, p)) ==> pos <= p <= data@.len(),
{
    let n = data.len();
    assert(n == data@.len());
    let (t, p1) = if w.0 > 0 {
        match read_big_endian_integer(data, pos, w.0) {
            Some(x) => x,
            None => {
                return None;
            },
        }
    } else {
        (1u32, pos)
    };
    if t == 0 {
        let (_, p2) = match read_big_endian_integer(data, p1, w.1) {
            Some(x) => x,
            None => {
                return None;
            },
        };
        let (_, p3) = match read_big_endian_integer(data, p2, w.2) {
            Some(x) => x,
            None => {
                return None;
            },
        };
        Some((None, p3))
    } else if t == 1 {
        let (offset, p2) = match read_big_endian_integer(data, p1, w.1) {
            Some(x) => x,
            None => {
                return None;
            },
        };
        let (g, p3) = if w.2 > 0 {
            match read_big_endian_integer(data, p2, w.2) {
                Some(x) => x,
                None => {
                    return None;
                },
            }
        } else {
            (0u32, p2)
        };
        Some((Some(XrefEntry::Normal { offset, generation: g as u16 }), p3))
    } else if t == 2 {
        let (container, p2) = match read_big_endian_integer(data, p1, w.1) {
            Some(x) => x,
            None => {
                return None;
            },
        };
        let (index, p3) = match read_big_endian_integer(data, p2, w.2) {
            Some(x) => x,
            None => {
                return None;
            },
        };
        Some((Some(XrefEntry::Compressed { container, index: index as u16 }), p3))
    } else {
        Some((None, p1))
    }
}

/// Reads the entries of one section into `xref`; gives the position after
/// them, or nothing where the data ends first.
fn read_section(data: &[u8], w: (usize, usize, usize), start: i64, count: i64, pos: usize, xref: &mut Xref)
    -> (r: Option<usize>)
    requires
        pos <= data@.len(),
    ensures
        match section_entries(data@, (w.0 as int, w.1 as int, w.2 as int), start, count, 0, pos as int, old(xref).entries@) {
            Some((e, p)) => r matches Some(p2) && p2 == p && final(xref).entries@ == e,
            None => r is None,
        },
        r matches Some(p) ==> p <= data@.len(),
        final(xref).size == old(xref).size,
        final(xref).cross_reference_type == old(xref).cross_reference_type,
{
    let ghost wi = (w.0 as int, w.1 as int, w.2 as int);
    let ghost section = section_entries(data@, wi, start, count, 0, pos as int, xref.entries@);
    let mut at = pos;
    let mut j: i64 = 0;
    while j < count
        invariant
            0 <= j,
            count <= 0 ==> j == 0,
            count > 0 ==> j <= count,
            wi == (w.0 as int, w.1 as int, w.2 as int),
            at <= data@.len(),
            xref.size == old(xref).size,
            xref.cross_reference_type == old(xref).cross_reference_type,
            section == section_entries(data@, wi, start, count, 0, pos as int, old(xref).entries@),
            section == section_entries(data@, wi, start, count, j as int, at as int, xref.entries@),
        decreases count - j,
    {
        let ghost before = xref.entries@;
        match read_entry(data, at, w) {
            None => {
                return None;
            },
            Some((e, p)) => {
                let ghost next = match e {
                    Some(entry) => before.insert((start + j) as u32, entry),
                    None => before,
                };
                assert(section_entries(data@, wi, start, count, j as int, at as int, before)
                    == section_entries(data@, wi, start, count, j + 1, p as int, next));
                match e {
                    Some(entry) => {
                        let id = (start as u32).wrapping_add(j as u32);
                        assert(id == (start + j) as u32) by (bit_vector)
                            requires
                                id == vstd::wrapping::u32_specs::wrapping_add(start as u32, j as u32);
                        xref.insert(id, entry);
                    },
                    None => {},
                }
                assert(xref.entries@ == next);
                at = p;
            },
        }
        j = j + 1;
    }
    Some(at)
}

/// Reads the entries of the sections of a cross-reference stream from its
/// decoded data. The sections must fit in the data. Object numbers are taken
/// modulo 2^32.
pub fn decode_xref_entries(dict: Dictionary, data: &[u8]) -> (r: Result<(Xref, Dictionary), Error>)
    ensures
        xref_decoded_as(r, dict@, data@),
{
    let ghost d0 = dict@;
    let mut rest = dict;
    let size = match rest.get(size_key().as_slice()) {
        Ok(Object::Integer(v)) => *v,
        _ => {
            return Err(Error::Parse(ParseError::InvalidXref));
        },
    };
    let mut xref = Xref::new(size as u32, XrefType::CrossReferenceStream);
    let index = match rest.get(index_key().as_slice()) {
        Ok(o) => match parse_integer_array(o) {
            Some(v) => v,
            None => vec![0i64, size],
        },
        Err(_) => vec![0i64, size],
    };
    assert(index@ =~= xref_index(d0, size));
    let widths = match rest.get(w_key().as_slice()) {
        Ok(o) => match parse_integer_array(o) {
            Some(v) => v,
            None => {
                return Err(Error::Parse(ParseError::InvalidXref));
            },
        },
        Err(_) => {
            return Err(Error::Parse(ParseError::InvalidXref));
        },
    };
    if widths.len() < 3 || widths[0] < 0 || widths[1] < 0 || widths[2] < 0 {
        return Err(Error::Parse(ParseError::InvalidXref));
    }
    let w = (widths[0] as usize, widths[1] as usize, widths[2] as usize);
    let ghost wi = (w.0 as int, w.1 as int, w.2 as int);
    assert(xref_widths(d0) == Some(wi));
    if !fits_data(&index, w.0 as u128 + w.1 as u128 + w.2 as u128, data.len()) {
        return Err(Error::Parse(ParseError::InvalidXref));
    }
    let mut pos: usize = 0;
    let mut k: usize = 0;
    let sections = index.len() / 2;
    while k < sections
        invariant
            d0 == rest@,
            d0 == dict@,
            xref_size(d0) == Some(size),
            xref_widths(d0) == Some(wi),
            wi == (w.0 as int, w.1 as int, w.2 as int),
            index@ == xref_index(d0, size),
            index_fits_data(index@, wi.0 + wi.1 + wi.2, data@.len() as int),
            sections == index@.len() / 2,
            k <= sections,
            pos <= data@.len(),
            xref.size == size as u32,
            xref.cross_reference_type == XrefType::CrossReferenceStream,
            sections_entries(data@, wi, index@, 0, 0, Map::empty())
                == sections_entries(data@, wi, index@, k as int, pos as int, xref.entries@),
        decreases sections - k,
    {
        let start = index[2 * k];
        let count = index[2 * k + 1];
        match read_section(data, w, start, count, pos, &mut xref) {
            Some(p) => {
                pos = p;
            },
            None => {
                return Err(Error::IO(unexpected_eof()));
            },
        }
        k = k + 1;
    }
    rest.remove(length_key().as_slice());
    rest.remove(w_key().as_slice());
    rest.remove(index_key().as_slice());
    Ok((xref, rest))
}

/// Whether `r` is what decoding the cross-reference stream `stream` gives:
/// its entries as read from its content, decoded first where it has filters.
pub open spec fn xref_stream_result(stream: Stream, r: Result<(Xref, Dictionary), Error>) -> bool {
    &&& entries_get(stream.dict@, filter_bytes()) is None ==> xref_decoded_as(r, stream.dict@, stream.content@)
    &&& entries_get(stream.dict@, filter_bytes()) is Some ==> exists|decoded: Stream, done: Result<(), Error>|
        decompressed_as(stream, decoded, done, None) && match done {
            Ok(_) => xref_decoded_as(r, decoded.dict@, decoded.content@),
            Err(e) => r == Err::<(Xref, Dictionary), Error>(e),
        }
}

/// Decode a cross-reference stream: its filters, then its entries.
pub fn decode_xref_stream(stream: Stream) -> (r: Result<(Xref, Dictionary), Error>)
    requires
        stream_decodable(stream.dict@),
    ensures
        xref_stream_result(stream, r),
{
    let mut stream = stream;
    let ghost before = stream;
    if stream.is_compressed() {
        let done = stream.decompress();
        let ghost after = stream;
        assert(decompressed_as(before, after, done, None));
        match done {
            Ok(_) => {},
            Err(e) => {
                return Err(e);
            },
        }
    }
    decode_xref_entries(stream.dict, stream.content.as_slice())
}

} // verus!

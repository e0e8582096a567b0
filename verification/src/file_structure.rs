//! Reading the structure of a PDF file: its header, its cross-reference
//! table and trailer, and the pointer to the table at its end.

use vstd::prelude::*;
use vstd::utf8::{valid_utf8, decode_utf8};
use crate::object::{Object, PdfValue, Dictionary, entries_get};
use crate::parser::{
    has_word, eol_len, line_end, space_end, spec_unsigned, spec_integer, spec_direct_objects, tag, eol, space,
    unsigned_int, integer, direct_objects, lemma_line_end, lemma_digits_end, lemma_space_end, copy_range,
};
use crate::xref::{Xref, XrefEntry, XrefType};
use crate::error::Error;
use crate::names::{size_bytes, size_key};
use crate::strings::utf8_text;

verus! {

broadcast use vstd::std_specs::btree::group_btree_axioms;

/// `%PDF-`
pub open spec fn header_word() -> Seq<u8> {
    seq![37u8, 80, 68, 70, 45]
}

/// `xref`
pub open spec fn xref_word() -> Seq<u8> {
    seq![120u8, 114, 101, 102]
}

/// `trailer`
pub open spec fn trailer_word() -> Seq<u8> {
    seq![116u8, 114, 97, 105, 108, 101, 114]
}

/// `startxref`
pub open spec fn startxref_word() -> Seq<u8> {
    seq![115u8, 116, 97, 114, 116, 120, 114, 101, 102]
}

/// `%%EOF`
pub open spec fn eof_word() -> Seq<u8> {
    seq![37u8, 37, 69, 79, 70]
}

/// The version in the header at the start of `s`: the rest of the line after
/// `%PDF-`, which an end-of-line marker must end.
pub open spec fn spec_header(s: Seq<u8>) -> Option<Seq<u8>> {
    if has_word(s, 0, header_word()) && eol_len(s, line_end(s, 5)) is Some {
        Some(s.subrange(5, line_end(s, 5)))
    } else {
        None
    }
}

/// The end of the line of an entry of a cross-reference table: a space and
/// CR, a space and LF, or CR LF.
pub open spec fn xref_eol_end(s: Seq<u8>, p: int) -> Option<int> {
    if 0 <= p && p + 1 < s.len() && ((s[p] == 32 && (s[p + 1] == 13 || s[p + 1] == 10)) || (s[p] == 13 && s[p + 1]
        == 10)) {
        Some(p + 2)
    } else {
        None
    }
}

/// An entry of a cross-reference table at `p`: its offset, generation
/// number and whether it is in use (`n`) rather than free (`f`), and the
/// position after it.
pub open spec fn spec_xref_entry(s: Seq<u8>, p: int) -> Option<((nat, nat, bool), int)> {
    match spec_unsigned(s, p, u32::MAX as nat) {
        None => None,
        Some((offset, e1)) => if !(0 <= e1 < s.len() && s[e1] == 32) {
            None
        } else {
            match spec_unsigned(s, e1 + 1, u32::MAX as nat) {
                None => None,
                Some((generation, e2)) => if !(0 <= e2 && e2 + 1 < s.len() && s[e2] == 32 && (s[e2 + 1] == 110
                    || s[e2 + 1] == 102)) {
                    None
                } else {
                    match xref_eol_end(s, e2 + 2) {
                        None => None,
                        Some(e3) => Some(((offset, generation, s[e2 + 1] == 110), e3)),
                    }
                },
            }
        },
    }
}

/// The entry that an in-use line of a section gives, where its generation
/// number fits in 16 bits.
pub open spec fn entry_into(entries: Map<u32, XrefEntry>, id: int, line: (nat, nat, bool)) -> Map<u32, XrefEntry> {
    if line.2 && line.1 <= u16::MAX {
        entries.insert(id as u32, XrefEntry::Normal { offset: line.0 as u32, generation: line.1 as u16 })
    } else {
        entries
    }
}

/// The entries of a section from `q` on, the `i`-th of them for object
/// number `start + i`, put into `entries` in turn; and the position after
/// them.
pub open spec fn section_lines(s: Seq<u8>, q: int, start: nat, i: nat, entries: Map<u32, XrefEntry>)
    -> (Map<u32, XrefEntry>, int)
    decreases s.len() - q,
{
    match spec_xref_entry(s, q) {
        Some((line, e)) => if q < e <= s.len() {
            section_lines(s, e, start, i + 1, entry_into(entries, (start + i) as int, line))
        } else {
            (entries, q)
        },
        None => (entries, q),
    }
}

/// Where the entries of a section at `p` start: after its first object
/// number, a space, its count, maybe a space, and an end-of-line marker.
/// Gives the first object number too.
pub open spec fn section_head(s: Seq<u8>, p: int) -> Option<(nat, int)> {
    match spec_unsigned(s, p, usize::MAX as nat) {
        None => None,
        Some((start, e1)) => if !(0 <= e1 < s.len() && s[e1] == 32) {
            None
        } else {
            match spec_unsigned(s, e1 + 1, u32::MAX as nat) {
                None => None,
                Some((_, e2)) => {
                    let q = if 0 <= e2 < s.len() && s[e2] == 32 { e2 + 1 } else { e2 };
                    match eol_len(s, q) {
                        None => None,
                        Some(n) => Some((start, q + n)),
                    }
                },
            }
        },
    }
}

/// The sections from `q` on, put into `entries` in turn; and the position
/// after them.
pub open spec fn sections_from(s: Seq<u8>, q: int, entries: Map<u32, XrefEntry>) -> (Map<u32, XrefEntry>, int)
    decreases s.len() - q,
{
    match section_head(s, q) {
        Some((start, h)) => if q < h <= s.len() {
            let (m, e) = section_lines(s, h, start, 0, entries);
            if q < e <= s.len() { sections_from(s, e, m) } else { (entries, q) }
        } else {
            (entries, q)
        },
        None => (entries, q),
    }
}

/// A cross-reference table at `p`: `xref`, an end-of-line marker, at least
/// one section, then white-space and comments. Gives its entries and the
/// position after it.
pub open spec fn spec_xref_table(s: Seq<u8>, p: int) -> Option<(Map<u32, XrefEntry>, int)> {
    if !has_word(s, p, xref_word()) {
        None
    } else {
        match eol_len(s, p + 4) {
            None => None,
            Some(n) => if section_head(s, p + 4 + n) is None {
                None
            } else {
                let (m, e) = sections_from(s, p + 4 + n, Map::empty());
                Some((m, space_end(s, e)))
            },
        }
    }
}

/// A trailer at `p`: `trailer`, white-space and comments, a dictionary, and
/// white-space and comments. Gives the dictionary's entries and the position
/// after it.
pub open spec fn spec_trailer(s: Seq<u8>, p: int) -> Option<(Seq<(Seq<u8>, PdfValue)>, int)> {
    if !has_word(s, p, trailer_word()) {
        None
    } else {
        let q = space_end(s, p + 7);
        if 0 <= q && q + 1 < s.len() && s[q] == 60 && s[q + 1] == 60 {
            match spec_direct_objects(s, q) {
                Some((PdfValue::Dictionary(entries), e)) => Some((entries, space_end(s, e))),
                _ => None,
            }
        } else {
            None
        }
    }
}

/// The offset of the cross-reference table that the end of a file gives:
/// `startxref`, an end-of-line marker, an integer, an end-of-line marker and
/// `%%EOF`.
pub open spec fn spec_xref_start(s: Seq<u8>) -> Option<i64> {
    if !has_word(s, 0, startxref_word()) {
        None
    } else {
        match eol_len(s, 9) {
            None => None,
            Some(n) => match spec_integer(s, 9 + n) {
                None => None,
                Some((v, e)) => match eol_len(s, e) {
                    None => None,
                    Some(m) => if has_word(s, e + m, eof_word()) { Some(v) } else { None },
                },
            },
        }
    }
}

/// Reads the version in the header at the start of `input`.
pub fn header(input: &[u8]) -> (r: Option<String>)
    ensures
        match spec_header(input@) {
            Some(v) => if valid_utf8(v) { r matches Some(t) && t@ == decode_utf8(v) } else { r is None },
            None => r is None,
        },
{
    let prefix = vec![37u8, 80, 68, 70, 45];
    assert(prefix@ =~= header_word());
    if !tag(input, 0, prefix.as_slice()) {
        return None;
    }
    let mut q: usize = 5;
    while q < input.len() && input[q] != 13 && input[q] != 10
        invariant
            5 <= q <= input@.len(),
            line_end(input@, q as int) == line_end(input@, 5),
        decreases input@.len() - q,
    {
        q = q + 1;
    }
    match eol(input, q) {
        Some(_) => utf8_text(copy_range(input, 5, q).as_slice()),
        None => None,
    }
}

/// Reads an entry of a cross-reference table at `p`.
fn xref_entry(s: &[u8], p: usize) -> (r: Option<((u32, u32, bool), usize)>)
    requires
        p <= s@.len(),
    ensures
        match spec_xref_entry(s@, p as int) {
            Some(((o, g, n), e)) => r matches Some(((o2, g2, n2), e2)) && o2 == o && g2 == g && n2 == n && e2 == e
                && p < e <= s@.len(),
            None => r is None,
        },
{
    proof { lemma_digits_end(s@, p as int); }
    let len = s.len();
    let (offset, e1) = match unsigned_int(s, p, 4294967295u64) {
        Some(x) => x,
        None => {
            return None;
        },
    };
    if !(e1 < len && s[e1] == 32) {
        return None;
    }
    proof { lemma_digits_end(s@, e1 + 1); }
    let (generation, e2) = match unsigned_int(s, e1 + 1, 4294967295u64) {
        Some(x) => x,
        None => {
            return None;
        },
    };
    if !(e2 < len && len - e2 > 1 && s[e2] == 32 && (s[e2 + 1] == 110 || s[e2 + 1] == 102)) {
        return None;
    }
    let normal = s[e2 + 1] == 110;
    let q = e2 + 2;
    if q < len && len - q > 1 && ((s[q] == 32 && (s[q + 1] == 13 || s[q + 1] == 10)) || (s[q] == 13 && s[q + 1] == 10)) {
        Some(((offset as u32, generation as u32, normal), q + 2))
    } else {
        None
    }
}

/// Reads the head of a section at `p`.
fn xref_section_head(s: &[u8], p: usize) -> (r: Option<(u64, usize)>)
    requires
        p <= s@.len(),
    ensures
        match section_head(s@, p as int) {
            Some((start, h)) => r matches Some((start2, h2)) && start2 == start && h2 == h && p < h <= s@.len(),
            None => r is None,
        },
{
    proof { lemma_digits_end(s@, p as int); }
    let len = s.len();
    let (start, e1) = match unsigned_int(s, p, usize::MAX as u64) {
        Some(x) => x,
        None => {
            return None;
        },
    };
    if !(e1 < len && s[e1] == 32) {
        return None;
    }
    proof { lemma_digits_end(s@, e1 + 1); }
    let (_, e2) = match unsigned_int(s, e1 + 1, 4294967295u64) {
        Some(x) => x,
        None => {
            return None;
        },
    };
    let q = if e2 < len && s[e2] == 32 { e2 + 1 } else { e2 };
    match eol(s, q) {
        Some(n) => Some((start, q + n)),
        None => None,
    }
}

/// Reads the entries of a section at `h` into `xref`, the `i`-th for object
/// number `start + i` taken modulo 2^32.
fn xref_section_lines(s: &[u8], h: usize, start: u64, xref: &mut Xref) -> (r: usize)
    requires
        h <= s@.len(),
    ensures
        (final(xref).entries@, r as int) == section_lines(s@, h as int, start as nat, 0, old(xref).entries@),
        h <= r <= s@.len(),
        final(xref).size == old(xref).size,
        final(xref).cross_reference_type == old(xref).cross_reference_type,
{
    let mut q = h;
    let mut i: u64 = 0;
    loop
        invariant
            h <= q <= s@.len(),
            i + h <= q,
            xref.size == old(xref).size,
            xref.cross_reference_type == old(xref).cross_reference_type,
            section_lines(s@, h as int, start as nat, 0, old(xref).entries@)
                == section_lines(s@, q as int, start as nat, i as nat, xref.entries@),
        decreases s@.len() - q,
    {
        match xref_entry(s, q) {
            Some(((offset, generation, normal), e)) => {
                if normal && generation <= 65535 {
                    let id = (start as u32).wrapping_add(i as u32);
                    assert(id == (start + i) as u32) by (bit_vector)
                        requires
                            id == vstd::wrapping::u32_specs::wrapping_add(start as u32, i as u32);
                    xref.insert(id, XrefEntry::Normal { offset, generation: generation as u16 });
                }
                q = e;
                i = i + 1;
            },
            None => {
                return q;
            },
        }
    }
}

/// Reads a cross-reference table at `p`.
pub fn xref(s: &[u8], p: usize) -> (r: Option<(Xref, usize)>)
    requires
        p <= s@.len(),
    ensures
        match spec_xref_table(s@, p as int) {
            Some((entries, e)) => r matches Some((x, e2)) && x.entries@ == entries && e2 == e
                && x.size == 0 && x.cross_reference_type == XrefType::CrossReferenceTable,
            None => r is None,
        },
        r matches Some((_, e)) ==> e <= s@.len(),
{
    let len = s.len();
    assert(len == s@.len());
    let w = vec![120u8, 114, 101, 102];
    assert(w@ =~= xref_word());
    if !tag(s, p, w.as_slice()) {
        return None;
    }
    let n = match eol(s, p + 4) {
        Some(n) => n,
        None => {
            return None;
        },
    };
    let first = p + 4 + n;
    if xref_section_head(s, first).is_none() {
        return None;
    }
    let mut table = Xref::new(0, XrefType::CrossReferenceTable);
    let mut q = first;
    loop
        invariant
            first <= q <= s@.len(),
            has_word(s@, p as int, xref_word()),
            eol_len(s@, p + 4) == Some(n as int),
            first == p + 4 + n,
            section_head(s@, first as int) is Some,
            table.size == 0,
            table.cross_reference_type == XrefType::CrossReferenceTable,
            sections_from(s@, first as int, Map::empty()) == sections_from(s@, q as int, table.entries@),
        decreases s@.len() - q,
    {
        match xref_section_head(s, q) {
            Some((start, h)) => {
                let e = xref_section_lines(s, h, start, &mut table);
                q = e;
            },
            None => {
                let end = space(s, q);
                return Some((table, end));
            },
        }
    }
}

/// Reads a trailer at `p`.
pub fn trailer(s: &[u8], p: usize) -> (r: Option<(Dictionary, usize)>)
    requires
        p <= s@.len(),
    ensures
        match spec_trailer(s@, p as int) {
            Some((entries, e)) => r matches Some((d, e2)) && PdfValue::Dictionary(entries) == Object::Dictionary(d)@
                && e2 == e,
            None => r is None,
        },
{
    let len = s.len();
    assert(len == s@.len());
    let w = vec![116u8, 114, 97, 105, 108, 101, 114];
    assert(w@ =~= trailer_word());
    if !tag(s, p, w.as_slice()) {
        return None;
    }
    let q = space(s, p + 7);
    if !(q < s.len() && s.len() - q > 1 && s[q] == 60 && s[q + 1] == 60) {
        return None;
    }
    match direct_objects(s, q) {
        Some((Object::Dictionary(d), e)) => {
            let end = space(s, e);
            Some((d, end))
        },
        _ => None,
    }
}

/// Reads the offset of the cross-reference table at the end of a file,
/// which `input` starts with.
pub fn xref_start(input: &[u8]) -> (r: Option<i64>)
    ensures
        r == spec_xref_start(input@),
{
    let len = input.len();
    assert(len == input@.len());
    let w = vec![115u8, 116, 97, 114, 116, 120, 114, 101, 102];
    assert(w@ =~= startxref_word());
    if !tag(input, 0, w.as_slice()) {
        return None;
    }
    let n = match eol(input, 9) {
        Some(n) => n,
        None => {
            return None;
        },
    };
    let (v, e) = match integer(input, 9 + n) {
        Some(x) => x,
        None => {
            return None;
        },
    };
    let m = match eol(input, e) {
        Some(m) => m,
        None => {
            return None;
        },
    };
    let eof = vec![37u8, 37, 69, 79, 70];
    assert(eof@ =~= eof_word());
    if tag(input, e + m, eof.as_slice()) {
        Some(v)
    } else {
        None
    }
}

} // verus!

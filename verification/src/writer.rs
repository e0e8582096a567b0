//! Writing objects in PDF syntax.

use vstd::prelude::*;
use crate::format::{decimal, signed_decimal, push_decimal, push_signed_decimal};
use crate::object::{Object, PdfValue, StringFormat, Dictionary, Stream, dict_pairs, pairs_values, values_of, object_value,
    lemma_array_value, lemma_dictionary_value, lemma_stream_value, ObjectId, entries_set};
use crate::format::{fixed_digits, push_fixed_digits};
use crate::xref::{Xref, XrefEntry, XrefType, xref_entry_line};
use crate::document::Document;
use crate::encryption::object_type_name;
use crate::names::{obj_stm_bytes, obj_stm_key, xref_bytes, xref_key, linearized_bytes, linearized_key, size_bytes, size_key};
use vstd::utf8::encode_utf8;

verus! {

/// Whether `b` is written in a name as a `#` escape: white-space and
/// delimiter characters, and `#` itself.
pub open spec fn name_escaped(b: u8) -> bool {
    b == 32 || b == 9 || b == 10 || b == 13 || b == 12 || b == 40 || b == 41 || b == 60 || b == 62
        || b == 91 || b == 93 || b == 123 || b == 125 || b == 47 || b == 37 || b == 35
}

/// The uppercase hexadecimal digit for `d`, which is below 16.
pub open spec fn hex_upper(d: int) -> u8 {
    if d < 10 { (48 + d) as u8 } else { (55 + d) as u8 }
}

/// Two uppercase hexadecimal digits for `b`.
pub open spec fn hex_pair(b: u8) -> Seq<u8> {
    seq![hex_upper((b / 16) as int), hex_upper((b % 16) as int)]
}

/// The bytes that stand for the first `n` bytes of a name.
pub open spec fn name_body(name: Seq<u8>, n: nat) -> Seq<u8>
    decreases n,
{
    if n == 0 {
        Seq::empty()
    } else {
        let b = name[n - 1];
        name_body(name, (n - 1) as nat) + if name_escaped(b) { seq![35u8] + hex_pair(b) } else { seq![b] }
    }
}

/// A name as written: a solidus, then each byte, as `#XX` where it must be escaped.
pub open spec fn name_text(name: Seq<u8>) -> Seq<u8> {
    seq![47u8] + name_body(name, name.len())
}

/// Scans the first `n` bytes of a literal string for the bytes to escape:
/// gives the escaped positions found so far (backslashes, carriage returns and
/// closing parentheses without an opening one) and the positions of the
/// opening parentheses not yet closed.
pub open spec fn paren_scan(t: Seq<u8>, n: nat) -> (Set<int>, Seq<int>)
    decreases n,
{
    if n == 0 {
        (Set::empty(), Seq::empty())
    } else {
        let (esc, open) = paren_scan(t, (n - 1) as nat);
        let i = n - 1;
        let b = t[i];
        if b == 40 {
            (esc, open.push(i))
        } else if b == 41 {
            if open.len() > 0 { (esc, open.drop_last()) } else { (esc.insert(i), open) }
        } else if b == 92 || b == 13 {
            (esc.insert(i), open)
        } else {
            (esc, open)
        }
    }
}

/// The positions of a literal string that are written with a backslash before them.
pub open spec fn escaped_positions(t: Seq<u8>) -> Set<int> {
    let (esc, open) = paren_scan(t, t.len());
    esc.union(open.to_set())
}

/// The bytes that stand for the first `n` bytes of a literal string whose
/// escaped positions are `esc`.
pub open spec fn literal_body(t: Seq<u8>, esc: Set<int>, n: nat) -> Seq<u8>
    decreases n,
{
    if n == 0 {
        Seq::empty()
    } else {
        let i = n - 1;
        let b = t[i];
        literal_body(t, esc, (n - 1) as nat) + if esc.contains(i) {
            seq![92u8, if b == 13 { 114u8 } else { b }]
        } else {
            seq![b]
        }
    }
}

/// The bytes of a hexadecimal string between its angle brackets.
pub open spec fn hex_body(t: Seq<u8>, n: nat) -> Seq<u8>
    decreases n,
{
    if n == 0 { Seq::empty() } else { hex_body(t, (n - 1) as nat) + hex_pair(t[n - 1]) }
}

/// A string as written in its format.
pub open spec fn string_text(t: Seq<u8>, format: StringFormat) -> Seq<u8> {
    match format {
        StringFormat::Literal => seq![40u8] + literal_body(t, escaped_positions(t), t.len()) + seq![41u8],
        StringFormat::Hexadecimal => seq![60u8] + hex_body(t, t.len()) + seq![62u8],
    }
}

/// Whether a space must stand between this value and what precedes it.
pub open spec fn value_needs_separator(v: PdfValue) -> bool {
    v is Null || v is Boolean || v is Integer || v is Real || v is Reference
}

/// Whether a space must stand between this value and `endobj`.
pub open spec fn value_needs_end_separator(v: PdfValue) -> bool {
    value_needs_separator(v) || v is Name || v is Stream
}

/// The bytes of `null`, `true` and `false`.
pub open spec fn null_text() -> Seq<u8> { seq![110u8, 117, 108, 108] }

pub open spec fn true_text() -> Seq<u8> { seq![116u8, 114, 117, 101] }

pub open spec fn false_text() -> Seq<u8> { seq![102u8, 97, 108, 115, 101] }

/// The bytes of `stream` and a line feed, and of `endstream`.
pub open spec fn stream_keyword_text() -> Seq<u8> { seq![115u8, 116, 114, 101, 97, 109, 10] }

pub open spec fn endstream_text() -> Seq<u8> { seq![101u8, 110, 100, 115, 116, 114, 101, 97, 109] }

/// A value as written in PDF syntax.
pub open spec fn value_text(v: PdfValue) -> Seq<u8>
    decreases v, 0nat,
{
    match v {
        PdfValue::Null => null_text(),
        PdfValue::Boolean(b) => if b { true_text() } else { false_text() },
        PdfValue::Integer(i) => signed_decimal(i as int),
        PdfValue::Real(digits) => digits,
        PdfValue::Name(n) => name_text(n),
        PdfValue::Str(t, f) => string_text(t, f),
        PdfValue::Array(items) => seq![91u8] + items_text(items, items.len()) + seq![93u8],
        PdfValue::Dictionary(entries) => seq![60u8, 60] + entries_text(entries, entries.len()) + seq![62u8, 62],
        PdfValue::Stream(entries, content) => seq![60u8, 60] + entries_text(entries, entries.len()) + seq![62u8, 62]
            + stream_keyword_text() + content + endstream_text(),
        PdfValue::Reference(id, generation) => decimal(id as nat) + seq![32u8] + decimal(generation as nat) + seq![32u8, 82],
    }
}

/// The first `n` elements of an array, each after a space where it needs one.
pub open spec fn items_text(items: Seq<PdfValue>, n: nat) -> Seq<u8>
    decreases items, n,
{
    if n == 0 || n > items.len() {
        Seq::empty()
    } else {
        let v = items[n - 1];
        items_text(items, (n - 1) as nat) + if n > 1 && value_needs_separator(v) { seq![32u8] } else { Seq::empty() }
            + value_text(v)
    }
}

/// The first `n` entries of a dictionary: each key as a name, a space where
/// the value needs one, and the value.
pub open spec fn entries_text(entries: Seq<(Seq<u8>, PdfValue)>, n: nat) -> Seq<u8>
    decreases entries, n,
{
    if n == 0 || n > entries.len() {
        Seq::empty()
    } else {
        let (k, v) = entries[n - 1];
        entries_text(entries, (n - 1) as nat) + name_text(k) + if value_needs_separator(v) { seq![32u8] } else { Seq::empty() }
            + value_text(v)
    }
}


fn hex_digit_upper(d: u8) -> (r: u8)
    requires
        d < 16,
    ensures
        r == hex_upper(d as int),
{
    if d < 10 { 48 + d } else { 55 + d }
}

fn push_hex_pair(file: &mut Vec<u8>, b: u8)
    ensures
        final(file)@ == old(file)@ + hex_pair(b),
{
    file.push(hex_digit_upper(b / 16));
    file.push(hex_digit_upper(b % 16));
    assert(final(file)@ =~= old(file)@ + hex_pair(b));
}

fn is_name_escaped(b: u8) -> (r: bool)
    ensures
        r == name_escaped(b),
{
    b == 32 || b == 9 || b == 10 || b == 13 || b == 12 || b == 40 || b == 41 || b == 60 || b == 62
        || b == 91 || b == 93 || b == 123 || b == 125 || b == 47 || b == 37 || b == 35
}

fn push_bytes(file: &mut Vec<u8>, bytes: &[u8])
    ensures
        final(file)@ == old(file)@ + bytes@,
{
    let mut i: usize = 0;
    while i < bytes.len()
        invariant
            i <= bytes@.len(),
            file@ == old(file)@ + bytes@.subrange(0, i as int),
        decreases bytes@.len() - i,
    {
        file.push(bytes[i]);
        i = i + 1;
        assert(file@ =~= old(file)@ + bytes@.subrange(0, i as int));
    }
    assert(bytes@.subrange(0, i as int) =~= bytes@);
}

fn push_null(file: &mut Vec<u8>)
    ensures
        final(file)@ == old(file)@ + null_text(),
{
    file.push(110u8);
    file.push(117u8);
    file.push(108u8);
    file.push(108u8);
    assert(final(file)@ =~= old(file)@ + null_text());
}

fn push_bool(file: &mut Vec<u8>, b: bool)
    ensures
        final(file)@ == old(file)@ + if b { true_text() } else { false_text() },
{
    if b {
        file.push(116u8);
        file.push(114u8);
        file.push(117u8);
        file.push(101u8);
    } else {
        file.push(102u8);
        file.push(97u8);
        file.push(108u8);
        file.push(115u8);
        file.push(101u8);
    }
    assert(final(file)@ =~= old(file)@ + if b { true_text() } else { false_text() });
}

pub struct Writer;

impl Writer {
    /// Whether a space must stand between this object and what precedes it.
    pub fn need_separator(object: &Object) -> (r: bool)
        ensures
            r == value_needs_separator(object@),
    {
        match *object {
            Object::Null | Object::Boolean(_) | Object::Integer(_) | Object::Real(_) | Object::Reference(_) => true,
            _ => false,
        }
    }

    /// Whether a space must stand between this object and `endobj`.
    pub fn need_end_separator(object: &Object) -> (r: bool)
        ensures
            r == value_needs_end_separator(object@),
    {
        match *object {
            Object::Null | Object::Boolean(_) | Object::Integer(_) | Object::Real(_) | Object::Name(_)
            | Object::Reference(_) | Object::Stream(_) => true,
            _ => false,
        }
    }

    pub fn write_name(file: &mut Vec<u8>, name: &[u8])
        ensures
            final(file)@ == old(file)@ + name_text(name@),
    {
        file.push(47u8); // '/'
        let ghost start = file@;
        let mut i: usize = 0;
        while i < name.len()
            invariant
                i <= name@.len(),
                file@ == start + name_body(name@, i as nat),
            decreases name@.len() - i,
        {
            let b = name[i];
            // white-space and delimiter chars are encoded to # sequences
            if is_name_escaped(b) {
                file.push(35u8); // '#'
                push_hex_pair(file, b);
            } else {
                file.push(b);
            }
            i = i + 1;
            assert(file@ =~= start + name_body(name@, i as nat));
        }
        assert(final(file)@ =~= old(file)@ + name_text(name@));
    }

    /// The positions of a literal string to escape, as one flag per byte.
    fn literal_escape_flags(text: &[u8]) -> (r: Vec<bool>)
        ensures
            r@.len() == text@.len(),
            forall|i: int| 0 <= i < text@.len() ==> r@[i] == escaped_positions(text@).contains(i),
    {
        let mut flags: Vec<bool> = Vec::new();
        let mut open: Vec<usize> = Vec::new();
        let mut i: usize = 0;
        while i < text.len()
            invariant
                i <= text@.len(),
                flags@.len() == i,
                ({
                    let (esc, o) = paren_scan(text@, i as nat);
                    &&& forall|j: int| 0 <= j < i ==> flags@[j] == esc.contains(j)
                    &&& open@.len() == o.len()
                    &&& forall|j: int| 0 <= j < o.len() ==> open@[j] as int == o[j]
                    &&& forall|j: int| 0 <= j < o.len() ==> 0 <= #[trigger] o[j] < i
                    &&& forall|k: int| esc.contains(k) ==> 0 <= k < i
                }),
            decreases text@.len() - i,
        {
            let b = text[i];
            if b == 40 {
                flags.push(false);
                open.push(i);
            } else if b == 41 {
                if open.len() > 0 {
                    open.pop();
                    flags.push(false);
                } else {
                    flags.push(true);
                }
            } else if b == 92 || b == 13 {
                flags.push(true);
            } else {
                flags.push(false);
            }
            i = i + 1;
            proof {
                let (esc, o) = paren_scan(text@, i as nat);
                let (esc0, o0) = paren_scan(text@, (i - 1) as nat);
                assert(forall|j: int| 0 <= j < o.len() ==> open@[j] as int == o[j]);
            }
        }
        let ghost scan = paren_scan(text@, text@.len());
        let mut k: usize = 0;
        while k < open.len()
            invariant
                flags@.len() == text@.len(),
                k <= open@.len(),
                open@.len() == scan.1.len(),
                forall|j: int| 0 <= j < scan.1.len() ==> open@[j] as int == scan.1[j],
                forall|j: int| 0 <= j < scan.1.len() ==> 0 <= #[trigger] scan.1[j] < text@.len(),
                forall|j: int| 0 <= j < text@.len() ==> flags@[j] == (scan.0.contains(j)
                    || exists|m: int| 0 <= m < k && scan.1[m] == j),
            decreases open@.len() - k,
        {
            let p = open[k];
            flags.set(p, true);
            k = k + 1;
        }
        proof {
            assert forall|j: int| 0 <= j < text@.len() implies flags@[j] == escaped_positions(text@).contains(j) by {
                if scan.1.to_set().contains(j) {
                    assert(scan.1.contains(j));
                    let m = choose|m: int| 0 <= m < scan.1.len() && scan.1[m] == j;
                    assert(0 <= m < k && scan.1[m] == j);
                }
                if exists|m: int| 0 <= m < k && scan.1[m] == j {
                    let m = choose|m: int| 0 <= m < k && scan.1[m] == j;
                    assert(scan.1[m] == j);
                    assert(scan.1.contains(j));
                    assert(scan.1.to_set().contains(j));
                }
            }
        }
        flags
    }

    pub fn write_object(file: &mut Vec<u8>, object: &Object)
        ensures
            final(file)@ == old(file)@ + value_text(object@),
        decreases object, 1nat,
    {
        match object {
            Object::Null => push_null(file),
            Object::Boolean(value) => push_bool(file, *value),
            Object::Integer(value) => push_signed_decimal(file, *value),
            Object::Real(digits) => push_bytes(file, digits.as_slice()),
            Object::Name(name) => Self::write_name(file, name.as_slice()),
            Object::String(text, format) => Self::write_string(file, text.as_slice(), *format),
            Object::Array(array) => {
                Self::write_array(file, array);
                proof { lemma_array_value(*array); }
            },
            Object::Dictionary(dict) => {
                Self::write_dictionary(file, dict);
                proof { lemma_dictionary_value(*dict); }
            },
            Object::Stream(stream) => {
                Self::write_stream(file, stream);
                proof { lemma_stream_value(*stream); }
            },
            Object::Reference(id) => {
                push_decimal(file, id.0 as u64);
                file.push(32u8);
                push_decimal(file, id.1 as u64);
                file.push(32u8);
                file.push(82u8); // 'R'
                assert(final(file)@ =~= old(file)@ + value_text(object@));
            },
        }
    }

    #[verifier::loop_isolation(false)]
    pub fn write_array(file: &mut Vec<u8>, array: &Vec<Object>)
        ensures
            final(file)@ == old(file)@ + value_text(PdfValue::Array(values_of(array@))),
        decreases array, 0nat,
    {
        file.push(91u8); // '['
        let ghost start = file@;
        let ghost items = values_of(array@);
        let mut i: usize = 0;
        while i < array.len()
            invariant
                i <= array@.len(),
                file@ == start + items_text(items, i as nat),
            decreases array@.len() - i,
        {
            let object = &array[i];
            if i > 0 && Self::need_separator(object) {
                file.push(32u8);
            }
            proof {
                assert(decreases_to!(*array => array[i as int]));
            }
            Self::write_object(file, object);
            i = i + 1;
            assert(file@ =~= start + items_text(items, i as nat));
        }
        file.push(93u8); // ']'
        assert(final(file)@ =~= old(file)@ + value_text(PdfValue::Array(values_of(array@))));
    }

    #[verifier::loop_isolation(false)]
    pub fn write_dictionary(file: &mut Vec<u8>, dictionary: &Dictionary)
        ensures
            final(file)@ == old(file)@ + value_text(PdfValue::Dictionary(pairs_values(dict_pairs(*dictionary)))),
        decreases dictionary, 0nat,
    {
        file.push(60u8); // '<'
        file.push(60u8);
        let ghost start = file@;
        let entries = dictionary.entries();
        let ghost ents = pairs_values(dict_pairs(*dictionary));
        let mut i: usize = 0;
        while i < entries.len()
            invariant
                i <= entries@.len(),
                file@ == start + crate::writer::entries_text(ents, i as nat),
            decreases entries@.len() - i,
        {
            let (key, value) = &entries[i];
            Self::write_name(file, key.as_slice());
            if Self::need_separator(value) {
                file.push(32u8);
            }
            proof {
                crate::object::lemma_dictionary_decreases(*dictionary, i as int);
            }
            Self::write_object(file, value);
            i = i + 1;
            assert(file@ =~= start + crate::writer::entries_text(ents, i as nat));
        }
        file.push(62u8); // '>'
        file.push(62u8);
        assert(final(file)@ =~= old(file)@ + value_text(PdfValue::Dictionary(pairs_values(dict_pairs(*dictionary)))));
    }

    pub fn write_stream(file: &mut Vec<u8>, stream: &Stream)
        ensures
            final(file)@ == old(file)@ + value_text(PdfValue::Stream(pairs_values(dict_pairs(stream.dict)), stream.content@)),
        decreases stream, 0nat,
    {
        proof {
            assert(decreases_to!(*stream => stream.dict));
        }
        Self::write_dictionary(file, &stream.dict);
        file.push(115u8);
        file.push(116u8);
        file.push(114u8);
        file.push(101u8);
        file.push(97u8);
        file.push(109u8);
        file.push(10u8);
        push_bytes(file, stream.content.as_slice());
        file.push(101u8);
        file.push(110u8);
        file.push(100u8);
        file.push(115u8);
        file.push(116u8);
        file.push(114u8);
        file.push(101u8);
        file.push(97u8);
        file.push(109u8);
        assert(final(file)@ =~= old(file)@ + value_text(PdfValue::Stream(pairs_values(dict_pairs(stream.dict)), stream.content@)));
    }

    pub fn write_string(file: &mut Vec<u8>, text: &[u8], format: StringFormat)
        ensures
            final(file)@ == old(file)@ + string_text(text@, format),
    {
        match format {
            // Within a Literal string, backslash (\) and unbalanced parentheses should be escaped.
            // This rule apply to each individual byte in a string object,
            // whether the string is interpreted as single-byte or multiple-byte character codes.
            // If an end-of-line marker appears within a literal string without a preceding backslash, the result is equivalent to \n.
            // So \r also need be escaped.
            StringFormat::Literal => {
                let flags = Self::literal_escape_flags(text);
                let ghost esc = escaped_positions(text@);
                file.push(40u8); // '('
                let ghost start = file@;
                let mut i: usize = 0;
                while i < text.len()
                    invariant
                        i <= text@.len(),
                        flags@.len() == text@.len(),
                        forall|j: int| 0 <= j < text@.len() ==> flags@[j] == esc.contains(j),
                        file@ == start + literal_body(text@, esc, i as nat),
                    decreases text@.len() - i,
                {
                    let b = text[i];
                    if flags[i] {
                        file.push(92u8); // '\'
                        file.push(if b == 13 { 114u8 } else { b });
                    } else {
                        file.push(b);
                    }
                    i = i + 1;
                    assert(file@ =~= start + literal_body(text@, esc, i as nat));
                }
                file.push(41u8); // ')'
            },
            StringFormat::Hexadecimal => {
                file.push(60u8); // '<'
                let ghost start = file@;
                let mut i: usize = 0;
                while i < text.len()
                    invariant
                        i <= text@.len(),
                        file@ == start + hex_body(text@, i as nat),
                    decreases text@.len() - i,
                {
                    push_hex_pair(file, text[i]);
                    i = i + 1;
                    assert(file@ =~= start + hex_body(text@, i as nat));
                }
                file.push(62u8); // '>'
            },
        }
        assert(final(file)@ =~= old(file)@ + string_text(text@, format));
    }
}

/// `obj`.
pub open spec fn obj_text() -> Seq<u8> { seq![111u8, 98, 106] }

/// `endobj` and a line feed.
pub open spec fn endobj_text() -> Seq<u8> { seq![101u8, 110, 100, 111, 98, 106, 10] }

/// An indirect object as written: its number, generation and `obj`, a space
/// where the object needs one, the object, a space where it needs one at its
/// end, then `endobj` and a line feed.
pub open spec fn indirect_object_text(id: u32, generation: u16, v: PdfValue) -> Seq<u8> {
    decimal(id as nat) + seq![32u8] + decimal(generation as nat) + seq![32u8] + obj_text()
        + (if value_needs_separator(v) { seq![32u8] } else { Seq::empty() }) + value_text(v)
        + (if value_needs_end_separator(v) { seq![32u8] } else { Seq::empty() }) + endobj_text()
}

/// The line of object number `i` in a cross-reference table as written: its
/// entry where it is in use, nothing for another entry, and a free entry
/// where there is none.
pub open spec fn xref_row(entries: Map<u32, XrefEntry>, i: u32) -> Seq<u8> {
    if entries.contains_key(i) {
        match entries[i] {
            XrefEntry::Normal { .. } => xref_entry_line(entries[i]),
            _ => Seq::empty(),
        }
    } else {
        xref_entry_line(XrefEntry::UnusableFree)
    }
}

/// The lines of object numbers 1 to `n - 1`.
pub open spec fn xref_rows(entries: Map<u32, XrefEntry>, n: nat) -> Seq<u8>
    decreases n,
{
    if n <= 1 {
        Seq::empty()
    } else {
        xref_rows(entries, (n - 1) as nat) + xref_row(entries, (n - 1) as u32)
    }
}

/// A cross-reference table as written: `xref`, one section from object 0
/// with `size` entries, the first of them free.
pub open spec fn xref_table_text(entries: Map<u32, XrefEntry>, size: u32) -> Seq<u8> {
    seq![120u8, 114, 101, 102, 10, 48, 32] + decimal(size as nat) + seq![10u8]
        + xref_entry_line(XrefEntry::UnusableFree) + xref_rows(entries, size as nat)
}

/// Objects that a saved file leaves out: object streams, cross-reference
/// streams and linearization dictionaries.
pub open spec fn skipped_on_save(o: Object) -> bool {
    match object_type_name(o) {
        Some(n) => n == obj_stm_bytes() || n == xref_bytes() || n == linearized_bytes(),
        None => false,
    }
}

/// The first `n` objects of `ids` written after `head`: the text and the
/// cross-reference entries, each at the offset where its object starts.
pub open spec fn saved_body(ids: Seq<ObjectId>, objects: Map<ObjectId, Object>, n: nat, head: Seq<u8>)
    -> (Seq<u8>, Map<u32, XrefEntry>)
    decreases n,
{
    if n == 0 || n > ids.len() {
        (head, Map::empty())
    } else {
        let (text, entries) = saved_body(ids, objects, (n - 1) as nat, head);
        let id = ids[n - 1];
        let o = objects[id];
        if skipped_on_save(o) {
            (text, entries)
        } else {
            (text + indirect_object_text(id.0, id.1, o@),
                entries.insert(id.0, XrefEntry::Normal { offset: text.len() as u32, generation: id.1 }))
        }
    }
}

/// `%PDF-`, the version and a line feed.
pub open spec fn header_text(version: Seq<char>) -> Seq<u8> {
    seq![37u8, 80, 68, 70, 45] + encode_utf8(version) + seq![10u8]
}

/// The whole of a saved document: header, objects, cross-reference table,
/// trailer and the offset of the table.
pub open spec fn saved_text(version: Seq<char>, ids: Seq<ObjectId>, objects: Map<ObjectId, Object>, size: u32,
    trailer: Seq<(Seq<u8>, PdfValue)>) -> Seq<u8>
{
    let (body, entries) = saved_body(ids, objects, ids.len(), header_text(version));
    body + xref_table_text(entries, size) + seq![116u8, 114, 97, 105, 108, 101, 114, 10]
        + value_text(PdfValue::Dictionary(trailer)) + seq![10u8, 115, 116, 97, 114, 116, 120, 114, 101, 102, 10]
        + decimal(body.len()) + seq![10u8, 37, 37, 69, 79, 70]
}

/// Where the next byte written to `file` stands, as the 32-bit offset that a
/// cross-reference table holds.
fn file_offset(file: &Vec<u8>) -> (r: u32)
    ensures
        r == file@.len() as u32,
{
    #[verifier::truncate]
    let r = file.len() as u32;
    r
}

/// Appends the number, generation and `obj` of an indirect object.
fn push_object_header(file: &mut Vec<u8>, id: u32, generation: u16)
    ensures
        final(file)@ == old(file)@ + (decimal(id as nat) + seq![32u8] + decimal(generation as nat) + seq![32u8] + obj_text()),
{
    push_decimal(file, id as u64);
    file.push(32u8);
    push_decimal(file, generation as u64);
    file.push(32u8);
    file.push(111u8);
    file.push(98u8);
    file.push(106u8);
    assert(final(file)@ =~= old(file)@ + (decimal(id as nat) + seq![32u8] + decimal(generation as nat) + seq![32u8] + obj_text()));
}

/// `endobj` and a line feed, as bytes.
fn endobj_key() -> (r: Vec<u8>)
    ensures
        r@ == endobj_text(),
{
    let r = vec![101u8, 110, 100, 111, 98, 106, 10];
    assert(r@ =~= endobj_text());
    r
}

fn push_slice(file: &mut Vec<u8>, bytes: &[u8])
    ensures
        final(file)@ == old(file)@ + bytes@,
{
    let mut i: usize = 0;
    while i < bytes.len()
        invariant
            i <= bytes@.len(),
            file@ == old(file)@ + bytes@.subrange(0, i as int),
        decreases bytes@.len() - i,
    {
        file.push(bytes[i]);
        i = i + 1;
        assert(file@ =~= old(file)@ + bytes@.subrange(0, i as int));
    }
    assert(bytes@.subrange(0, i as int) =~= bytes@);
}

impl Writer {
    /// Writes an indirect object and records where it starts.
    pub fn write_indirect_object(file: &mut Vec<u8>, id: u32, generation: u16, object: &Object, xref: &mut Xref)
        ensures
            final(file)@ == old(file)@ + indirect_object_text(id, generation, object@),
            final(xref).entries@ == old(xref).entries@.insert(id, XrefEntry::Normal {
                offset: old(file)@.len() as u32, generation }),
            final(xref).size == old(xref).size,
            final(xref).cross_reference_type == old(xref).cross_reference_type,
    {
        let offset = file_offset(file);
        xref.insert(id, XrefEntry::Normal { offset, generation });
        let ghost v = object@;
        let ghost s0 = file@;
        push_object_header(file, id, generation);
        let ghost s1 = file@;
        let sep = Self::need_separator(object);
        if sep {
            file.push(32u8);
        }
        let ghost s2 = file@;
        Self::write_object(file, object);
        let ghost s3 = file@;
        let end_sep = Self::need_end_separator(object);
        if end_sep {
            file.push(32u8);
        }
        let ghost s4 = file@;
        push_slice(file, endobj_key().as_slice());
        proof {
            let h = decimal(id as nat) + seq![32u8] + decimal(generation as nat) + seq![32u8] + obj_text();
            let a = if value_needs_separator(v) { seq![32u8] } else { Seq::<u8>::empty() };
            let b = if value_needs_end_separator(v) { seq![32u8] } else { Seq::<u8>::empty() };
            assert(s1 == s0 + h);
            assert(s2 =~= s1 + a);
            assert(s3 == s2 + value_text(v));
            assert(s4 =~= s3 + b);
            assert(file@ == s4 + endobj_text());
            assert(indirect_object_text(id, generation, v) == h + a + value_text(v) + b + endobj_text());
            assert(file@ =~= s0 + (h + a + value_text(v) + b + endobj_text()));
        }
    }

    /// Writes a cross-reference table of one section from object 0.
    pub fn write_xref(file: &mut Vec<u8>, xref: &Xref)
        ensures
            final(file)@ == old(file)@ + xref_table_text(xref.entries@, xref.size),
    {
        file.push(120u8);
        file.push(114u8);
        file.push(101u8);
        file.push(102u8);
        file.push(10u8);
        file.push(48u8);
        file.push(32u8);
        push_decimal(file, xref.size as u64);
        file.push(10u8);
        assert(file@ =~= old(file)@ + seq![120u8, 114, 101, 102, 10, 48, 32] + decimal(xref.size as nat) + seq![10u8]);
        XrefEntry::UnusableFree.write_xref_entry(file);
        let ghost head = file@;
        let mut obj_id: u32 = 1;
        while obj_id < xref.size
            invariant
                1 <= obj_id,
                obj_id <= xref.size || obj_id == 1,
                file@ == head + xref_rows(xref.entries@, obj_id as nat),
            decreases xref.size - obj_id,
        {
            match xref.get(obj_id) {
                Some(entry) => {
                    match *entry {
                        XrefEntry::Normal { .. } => entry.write_xref_entry(file),
                        _ => {},
                    }
                },
                None => XrefEntry::UnusableFree.write_xref_entry(file),
            }
            obj_id = obj_id + 1;
            assert(file@ =~= head + xref_rows(xref.entries@, obj_id as nat));
        }
        assert(xref_rows(xref.entries@, 1) == Seq::<u8>::empty());
        assert(xref.size <= 1 ==> xref_rows(xref.entries@, xref.size as nat) == Seq::<u8>::empty());
        assert(xref.size >= 1 ==> obj_id == xref.size);
        assert(file@ == head + xref_rows(xref.entries@, obj_id as nat));
        if xref.size >= 1 {
            assert(file@ == head + xref_rows(xref.entries@, xref.size as nat));
        } else {
            assert(obj_id == 1);
            assert(xref_rows(xref.entries@, 0) == Seq::<u8>::empty());
            assert(file@ =~= head + xref_rows(xref.entries@, xref.size as nat));
        }
    }
}

impl Document {
    /// Sets the trailer's /Size and writes the trailer.
    fn write_trailer(&mut self, file: &mut Vec<u8>)
        requires
            old(self).max_id < u32::MAX,
        ensures
            final(self).trailer@ == entries_set(old(self).trailer@, size_bytes(), Object::Integer((old(self).max_id + 1) as i64)),
            final(file)@ == old(file)@ + seq![116u8, 114, 97, 105, 108, 101, 114, 10]
                + value_text(PdfValue::Dictionary(pairs_values(dict_pairs(final(self).trailer)))),
            final(self).objects == old(self).objects,
            final(self).version == old(self).version,
            final(self).max_id == old(self).max_id,
    {
        let size = (self.max_id + 1) as i64;
        self.trailer.set(size_key(), Object::Integer(size));
        file.push(116u8);
        file.push(114u8);
        file.push(97u8);
        file.push(105u8);
        file.push(108u8);
        file.push(101u8);
        file.push(114u8);
        file.push(10u8);
        Writer::write_dictionary(file, &self.trailer);
        assert(final(file)@ =~= old(file)@ + seq![116u8, 114, 97, 105, 108, 101, 114, 10]
            + value_text(PdfValue::Dictionary(pairs_values(dict_pairs(self.trailer)))));
    }

    /// Saves the document as a PDF file appended to `target`: header,
    /// every object but object streams, cross-reference streams and
    /// linearization dictionaries, a cross-reference table, the trailer with
    /// its /Size set, and the table's offset. Offsets count from the start of
    /// what is written here. The objects come in the order in which the map
    /// gives them, each once.
    pub fn save_to(&mut self, target: &mut Vec<u8>)
        requires
            old(self).max_id < u32::MAX,
        ensures
            final(self).trailer@ == entries_set(old(self).trailer@, size_bytes(), Object::Integer((old(self).max_id + 1) as i64)),
            final(self).objects == old(self).objects,
            final(self).max_id == old(self).max_id,
            final(self).version == old(self).version,
            exists|ids: Seq<ObjectId>| {
                &&& ids.to_set() == old(self).objects@.dom()
                &&& ids.no_duplicates()
                &&& final(target)@ == old(target)@ + saved_text(old(self).version@, ids, old(self).objects@,
                    (old(self).max_id + 1) as u32, pairs_values(dict_pairs(final(self).trailer)))
            },
    {
        let mut out: Vec<u8> = Vec::new();
        let mut xref = Xref::new(self.max_id + 1, XrefType::CrossReferenceTable);
        out.push(37u8);
        out.push(80u8);
        out.push(68u8);
        out.push(70u8);
        out.push(45u8);
        push_slice(&mut out, self.version.as_str().as_bytes());
        out.push(10u8);
        assert(out@ =~= header_text(self.version@));
        let ids = self.object_ids();
        let ghost head = out@;
        let mut i: usize = 0;
        while i < ids.len()
            invariant
                i <= ids@.len(),
                ids@.to_set() == self.objects@.dom(),
                forall|j: int| 0 <= j < ids@.len() ==> self.objects@.contains_key(#[trigger] ids@[j]),
                (out@, xref.entries@) == saved_body(ids@, self.objects@, i as nat, head),
                xref.size == self.max_id + 1,
            decreases ids@.len() - i,
        {
            let id = ids[i];
            assert(self.objects@.contains_key(ids@[i as int]));
            let object = match self.objects.get(&id) {
                Some(o) => o,
                None => {
                    i = i + 1;
                    continue;
                },
            };
            let skip = match crate::encryption::type_name_of(object) {
                Some(t) => crate::object::bytes_equal(t, obj_stm_key().as_slice())
                    || crate::object::bytes_equal(t, xref_key().as_slice())
                    || crate::object::bytes_equal(t, linearized_key().as_slice()),
                None => false,
            };
            if !skip {
                Writer::write_indirect_object(&mut out, id.0, id.1, object, &mut xref);
            }
            i = i + 1;
        }
        let xref_start = out.len();
        Writer::write_xref(&mut out, &xref);
        self.write_trailer(&mut out);
        out.push(10u8);
        out.push(115u8);
        out.push(116u8);
        out.push(97u8);
        out.push(114u8);
        out.push(116u8);
        out.push(120u8);
        out.push(114u8);
        out.push(101u8);
        out.push(102u8);
        out.push(10u8);
        push_decimal(&mut out, xref_start as u64);
        out.push(10u8);
        out.push(37u8);
        out.push(37u8);
        out.push(69u8);
        out.push(79u8);
        out.push(70u8);
        push_slice(target, out.as_slice());
        assert(out@ =~= saved_text(self.version@, ids@, self.objects@, (self.max_id + 1) as u32,
            pairs_values(dict_pairs(self.trailer))));
    }
}

} // verus!

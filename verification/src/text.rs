//! The text of content streams: the strings that the text-showing
//! operators show, decoded through the encoding of the font in use and
//! gathered into one chunk per run of text in one font.

use vstd::prelude::*;
use vstd::string::StringExecFns;
use vstd::utf8::encode_utf8;
use crate::content::{Content, Operation};
use crate::encodings::{Encoding, cmap_fits, cmap_units, is_surrogate, mapped_units, utf16_text,
    utf16_text_from, is_utf16_name, units_be, utf16be_text, encoded_units, utf16_units};
use crate::error::Error;
use crate::object::{Object, ObjectId, Dictionary, PdfValue, values_of, lemma_array_value, find_key, lemma_find_key,
    variant_name, entries_get, dict_pairs, copy_bytes};
use crate::document::{Document, object_of};
use crate::names::{font_bytes, font_key};
use crate::pages::{direct_resources, resource_ids, parents_end};

verus! {

/// Whether every string decodes in `enc` without a fault: a one-byte
/// encoding that maps no byte to a surrogate code unit, or a ToUnicode CMap
/// whose lookups fit.
pub open spec fn encoding_fits(enc: Encoding) -> bool {
    match enc {
        Encoding::OneByteEncoding(map) => forall|i: int| 0 <= i < 256 ==> (#[trigger] map@[i] matches Some(u)
            ==> !is_surrogate(u)),
        Encoding::UnicodeMapEncoding(cmap) => cmap_fits(cmap),
        Encoding::SimpleEncoding(_) => true,
    }
}

/// The text that `bytes` stand for in `enc`, or the error of an encoding
/// known by a name that gives no text.
pub open spec fn decoded_text(enc: Encoding, bytes: Seq<u8>) -> Result<Seq<char>, Error> {
    match enc {
        Encoding::OneByteEncoding(map) => Ok(utf16_text(mapped_units(map@, bytes, bytes.len()))->0),
        Encoding::SimpleEncoding(name) => if is_utf16_name(name@) {
            Ok(utf16be_text(bytes))
        } else {
            Err(Error::CharacterEncoding)
        },
        Encoding::UnicodeMapEncoding(cmap) => Ok(utf16be_text(units_be(cmap_units(cmap, bytes)))),
    }
}

/// The text gathered from the first `n` operands `vals` after `text`, and
/// the error that stopped it, if any.
pub open spec fn collect_prefix(enc: Encoding, vals: Seq<PdfValue>, n: nat, text: Seq<char>) -> (Seq<char>, Option<Error>)
    decreases vals, n,
{
    if n == 0 || n > vals.len() {
        (text, None)
    } else {
        let (t, e) = collect_prefix(enc, vals, (n - 1) as nat, text);
        if e is Some {
            (t, e)
        } else {
            collect_value(enc, vals[n - 1], t)
        }
    }
}

/// The text gathered from operand `v` after `text`: a string decoded, the
/// text of an array followed by a space, a space for a shift of more than
/// a hundred to the right; and the error that stopped it, if any.
pub open spec fn collect_value(enc: Encoding, v: PdfValue, text: Seq<char>) -> (Seq<char>, Option<Error>)
    decreases v, 0nat,
{
    match v {
        PdfValue::Str(b, _) => match decoded_text(enc, b) {
            Ok(t) => (text + t, None),
            Err(e) => (text, Some(e)),
        },
        PdfValue::Array(items) => {
            let (t, e) = collect_prefix(enc, items, items.len(), text);
            if e is Some {
                (t, e)
            } else {
                (t.push(' '), None)
            }
        },
        PdfValue::Integer(i) => if i < -100 {
            (text.push(' '), None)
        } else {
            (text, None)
        },
        _ => (text, None),
    }
}

/// Once gathering text has stopped at an error, more operands change
/// nothing.
proof fn lemma_prefix_stops(enc: Encoding, vals: Seq<PdfValue>, k: nat, m: nat, text: Seq<char>)
    requires
        k <= m <= vals.len(),
        collect_prefix(enc, vals, k, text).1 is Some,
    ensures
        collect_prefix(enc, vals, m, text) == collect_prefix(enc, vals, k, text),
    decreases m,
{
    if m > k {
        lemma_prefix_stops(enc, vals, k, (m - 1) as nat, text);
    }
}

/// Once extracting text has stopped at a `Tf` without an operand, more
/// operations change nothing.
proof fn lemma_chunks_stop(ops: Seq<Operation>, encs: Seq<(Seq<u8>, Encoding)>, start: Seq<Result<Seq<char>, Error>>,
    k: nat, m: nat)
    requires
        k <= m <= ops.len(),
        chunks_after(ops, encs, start, k) is None,
    ensures
        chunks_after(ops, encs, start, m) is None,
    decreases m,
{
    if m > k {
        lemma_chunks_stop(ops, encs, start, k, (m - 1) as nat);
    }
}

/// The error of a call that ended in `r`, if any.
pub open spec fn error_of(r: Result<(), Error>) -> Option<Error> {
    match r {
        Ok(_) => None,
        Err(e) => Some(e),
    }
}

/// The code units that a one-byte encoding gives are none of them
/// surrogates where the encoding maps no byte to one.
proof fn lemma_mapped_plain(map: Seq<Option<u16>>, bytes: Seq<u8>, n: nat)
    requires
        map.len() == 256,
        forall|i: int| 0 <= i < 256 ==> (#[trigger] map[i] matches Some(u) ==> !is_surrogate(u)),
    ensures
        forall|j: int| 0 <= j < mapped_units(map, bytes, n).len() ==> !is_surrogate(#[trigger] mapped_units(map, bytes, n)[j]),
    decreases n,
{
    if n > 0 && n <= bytes.len() {
        lemma_mapped_plain(map, bytes, (n - 1) as nat);
        let b = bytes[n - 1] as int;
        assert(map[b] matches Some(u) ==> !is_surrogate(u));
        let prev = mapped_units(map, bytes, (n - 1) as nat);
        assert forall|j: int| 0 <= j < mapped_units(map, bytes, n).len()
            implies !is_surrogate(#[trigger] mapped_units(map, bytes, n)[j]) by {
            if j < prev.len() {
                assert(mapped_units(map, bytes, n)[j] == prev[j]);
            }
        }
    }
}

/// Code units none of which is a surrogate are valid UTF-16.
proof fn lemma_plain_units_text(units: Seq<u16>, i: int)
    requires
        forall|j: int| 0 <= j < units.len() ==> !is_surrogate(#[trigger] units[j]),
    ensures
        utf16_text_from(units, i) is Some,
    decreases units.len() - i,
{
    if 0 <= i < units.len() {
        lemma_plain_units_text(units, i + 1);
    }
}

/// Whether the text `s` is empty.
fn text_is_empty(s: &String) -> (r: bool)
    ensures
        r == (s@.len() == 0),
{
    let b = s.as_str().as_bytes();
    proof {
        vstd::utf8::encode_utf8_decode_utf8(s@);
        vstd::utf8::encode_utf8_valid_utf8(s@);
        if b@.len() == 0 {
            assert(b@ =~= Seq::<u8>::empty());
        }
    }
    b.len() == 0
}

/// `str::ends_with` with a `char` pattern: whether the text ends with `c`.
#[verifier::external_body]
fn ends_with_char(s: &str, c: char) -> (r: bool)
    ensures
        r == (s@.len() > 0 && s@.last() == c),
{
    s.ends_with(c)
}

impl Document {
    /// The text that `bytes` stand for in `encoding`.
    pub fn decode_text(encoding: &Encoding, bytes: &[u8]) -> (r: Result<String, Error>)
        requires
            encoding_fits(*encoding),
        ensures
            match decoded_text(*encoding, bytes@) {
                Ok(t) => r matches Ok(s) && s@ == t,
                Err(e) => r == Err::<String, Error>(e),
            },
    {
        proof {
            if let Encoding::OneByteEncoding(map) = *encoding {
                lemma_mapped_plain(map@, bytes@, bytes@.len());
                lemma_plain_units_text(mapped_units(map@, bytes@, bytes@.len()), 0);
            }
        }
        encoding.bytes_to_string(bytes)
    }
}

/// Appends the text of `operands` to `text`: strings decoded, the text of
/// arrays followed by a space, a space for each shift of more than a
/// hundred to the right. Stops at the first string that does not decode.
fn collect_text(text: &mut String, encoding: &Encoding, operands: &Vec<Object>) -> (r: Result<(), Error>)
    requires
        encoding_fits(*encoding),
    ensures
        collect_prefix(*encoding, values_of(operands@), operands@.len(), old(text)@) == (final(text)@, error_of(r)),
    decreases operands, 0nat,
{
    let ghost vals = values_of(operands@);
    let mut i: usize = 0;
    while i < operands.len()
        invariant
            i <= operands@.len(),
            vals == values_of(operands@),
            encoding_fits(*encoding),
            collect_prefix(*encoding, vals, i as nat, old(text)@) == (text@, None::<Error>),
        decreases operands@.len() - i,
    {
        proof {
            assert(decreases_to!(*operands => operands[i as int]));
        }
        let r = collect_operand(text, encoding, &operands[i]);
        i = i + 1;
        if r.is_err() {
            proof {
                lemma_prefix_stops(*encoding, vals, i as nat, operands@.len(), old(text)@);
            }
            return r;
        }
    }
    Ok(())
}

/// Appends the text of one operand to `text`.
fn collect_operand(text: &mut String, encoding: &Encoding, operand: &Object) -> (r: Result<(), Error>)
    requires
        encoding_fits(*encoding),
    ensures
        collect_value(*encoding, operand@, old(text)@) == (final(text)@, error_of(r)),
    decreases operand, 1nat,
{
    match operand {
        Object::String(bytes, _) => {
            match crate::document::Document::decode_text(encoding, bytes.as_slice()) {
                Ok(t) => {
                    text.append(t.as_str());
                    Ok(())
                },
                Err(e) => Err(e),
            }
        },
        Object::Array(arr) => {
            proof {
                lemma_array_value(*arr);
            }
            let r = collect_text(text, encoding, arr);
            if r.is_err() {
                return r;
            }
            proof {
                reveal_strlit(" ");
            }
            text.append(" ");
            Ok(())
        },
        Object::Integer(i) => {
            if *i < -100 {
                proof {
                    reveal_strlit(" ");
                }
                text.append(" ");
            }
            Ok(())
        },
        _ => Ok(()),
    }
}

/// The operator `Tf`, which selects a font.
pub open spec fn tf_op() -> Seq<u8> {
    seq![84u8, 102]
}

/// The operator `Tj`, which shows a string.
pub open spec fn tj_op() -> Seq<u8> {
    seq![84u8, 106]
}

/// The operator `TJ`, which shows strings with shifts between them.
pub open spec fn tj_array_op() -> Seq<u8> {
    seq![84u8, 74]
}

/// The operator `ET`, which ends a text object.
pub open spec fn et_op() -> Seq<u8> {
    seq![69u8, 84]
}

/// The chunks of a vector of chunks, texts by their characters.
pub open spec fn chunk_views(v: Seq<Result<String, Error>>) -> Seq<Result<Seq<char>, Error>> {
    Seq::new(v.len(), |i: int| match v[i] {
        Ok(s) => Ok(s@),
        Err(e) => Err(e),
    })
}

/// The names of fonts with their encodings.
pub open spec fn encodings_view(v: Seq<(Vec<u8>, Encoding)>) -> Seq<(Seq<u8>, Encoding)> {
    Seq::new(v.len(), |i: int| (v[i].0@, v[i].1))
}

/// What extracting text gives after the first `n` operations `ops`, with
/// `encs` the encodings of the fonts by name and `start` the chunks
/// before: the chunks so far, the encoding in use (its index in `encs`)
/// and the text of the current chunk; `None` where a `Tf` has no operand.
/// `Tf` selects the encoding of the font it names and closes the current
/// chunk; `Tj` and `TJ` add the text of their operands in the encoding in
/// use, if any, an error that stops them added as a chunk of its own; `ET`
/// ends the current text with a line feed.
pub open spec fn chunks_after(ops: Seq<Operation>, encs: Seq<(Seq<u8>, Encoding)>,
    start: Seq<Result<Seq<char>, Error>>, n: nat) -> Option<(Seq<Result<Seq<char>, Error>>, Option<int>, Seq<char>)>
    decreases n,
{
    if n == 0 || n > ops.len() {
        Some((start, None, Seq::empty()))
    } else {
        match chunks_after(ops, encs, start, (n - 1) as nat) {
            None => None,
            Some((chunks, cur, text)) => {
                let op = ops[n - 1];
                let name = encode_utf8(op.operator@);
                if name == tf_op() {
                    if op.operands@.len() == 0 {
                        None
                    } else {
                        let (chunks1, cur1) = match op.operands@[0] {
                            Object::Name(f) => (chunks, find_key(encs, f@)),
                            o => (chunks.push(Err(Error::ObjectType { expected: "Name", found: variant_name(o) })),
                                None),
                        };
                        if text.len() > 0 {
                            Some((chunks1.push(Ok(text)), cur1, Seq::empty()))
                        } else {
                            Some((chunks1, cur1, text))
                        }
                    }
                } else if name == tj_op() || name == tj_array_op() {
                    match cur {
                        Some(i) => {
                            let (t, e) = collect_prefix(encs[i].1, values_of(op.operands@), op.operands@.len(), text);
                            match e {
                                Some(err) => Some((chunks.push(Err(err)), cur, t)),
                                None => Some((chunks, cur, t)),
                            }
                        },
                        None => Some((chunks, cur, text)),
                    }
                } else if name == et_op() {
                    if text.len() > 0 && text.last() == '\n' {
                        Some((chunks, cur, text))
                    } else {
                        Some((chunks, cur, text.push('\n')))
                    }
                } else {
                    Some((chunks, cur, text))
                }
            },
        }
    }
}

/// What extracting the text of all the operations `ops` gives: the chunks,
/// the last one the text left over where there is any; `None` where a `Tf`
/// has no operand.
pub open spec fn text_chunks_of(ops: Seq<Operation>, encs: Seq<(Seq<u8>, Encoding)>,
    start: Seq<Result<Seq<char>, Error>>) -> Option<Seq<Result<Seq<char>, Error>>> {
    match chunks_after(ops, encs, start, ops.len()) {
        None => None,
        Some((chunks, _, text)) => Some(if text.len() > 0 { chunks.push(Ok(text)) } else { chunks }),
    }
}

/// The index of the encoding of the font named `name`.
fn encoding_index(encodings: &Vec<(Vec<u8>, Encoding)>, name: &[u8]) -> (r: Option<usize>)
    ensures
        r matches Some(i) ==> find_key(encodings_view(encodings@), name@) == Some(i as int) && i < encodings@.len(),
        r is None ==> find_key(encodings_view(encodings@), name@) is None,
{
    let ghost ev = encodings_view(encodings@);
    proof {
        lemma_find_key(ev, name@);
    }
    let mut i: usize = 0;
    while i < encodings.len()
        invariant
            i <= encodings@.len(),
            ev == encodings_view(encodings@),
            forall|j: int| 0 <= j < i ==> ev[j].0 != name@,
        decreases encodings@.len() - i,
    {
        assert(ev[i as int].0 == encodings@[i as int].0@);
        if crate::object::bytes_equal(encodings[i].0.as_slice(), name) {
            proof {
                lemma_find_key(ev, name@);
                if let Some(i0) = find_key(ev, name@) {
                    if i0 < i {
                        assert(ev[i0].0 != name@);
                    }
                }
            }
            return Some(i);
        }
        i = i + 1;
    }
    None
}

/// Extracts the text of the operations of `content`, after the chunks
/// `chunks`, with `encodings` the encodings of the fonts by name: one chunk
/// per run of text in one font, each error of a font name or of decoding a
/// string a chunk of its own; an error where a `Tf` has no operand.
pub fn text_chunks(content: &Content, encodings: &Vec<(Vec<u8>, Encoding)>, chunks: Vec<Result<String, Error>>)
    -> (r: Result<Vec<Result<String, Error>>, Error>)
    requires
        forall|i: int| 0 <= i < encodings@.len() ==> encoding_fits(#[trigger] encodings@[i].1),
    ensures
        match text_chunks_of(content.operations@, encodings_view(encodings@), chunk_views(chunks@)) {
            Some(c) => r matches Ok(v) && chunk_views(v@) == c,
            None => r matches Err(e) && e matches Error::Syntax(s) && s@ == "missing font operand"@,
        },
{
    let ops = &content.operations;
    let ghost ev = encodings_view(encodings@);
    let mut out = chunks;
    let mut current: Option<usize> = None;
    let mut text = String::new();
    let mut k: usize = 0;
    while k < ops.len()
        invariant
            k <= ops@.len(),
            ops@ == content.operations@,
            ev == encodings_view(encodings@),
            forall|i: int| 0 <= i < encodings@.len() ==> encoding_fits(#[trigger] encodings@[i].1),
            current matches Some(i) ==> i < encodings@.len(),
            chunks_after(ops@, ev, chunk_views(chunks@), k as nat) == Some((chunk_views(out@),
                match current { Some(i) => Some(i as int), None => None::<int> }, text@)),
        decreases ops@.len() - k,
    {
        let op = &ops[k];
        let name = op.operator.as_str().as_bytes();
        let ghost before = chunk_views(out@);
        let tf: [u8; 2] = [84, 102];
        let tj: [u8; 2] = [84, 106];
        let tj_array: [u8; 2] = [84, 74];
        let et: [u8; 2] = [69, 84];
        assert(tf@ =~= tf_op() && tj@ =~= tj_op() && tj_array@ =~= tj_array_op() && et@ =~= et_op());
        if crate::object::bytes_equal(name, tf.as_slice()) {
            if op.operands.len() == 0 {
                let msg = "missing font operand".to_owned();
                proof {
                    assert(name@ == tf_op());
                    assert(chunks_after(ops@, ev, chunk_views(chunks@), (k + 1) as nat) is None);
                    lemma_chunks_stop(ops@, ev, chunk_views(chunks@), (k + 1) as nat, ops@.len());
                    assert(ops@ == content.operations@);
                    assert(chunks_after(content.operations@, ev, chunk_views(chunks@), content.operations@.len()) is None);
                    assert(text_chunks_of(content.operations@, ev, chunk_views(chunks@)) is None);
                }
                assert(msg@ == "missing font operand"@);
                return Err(Error::Syntax(msg));
            }
            match op.operands[0].as_name() {
                Ok(font) => {
                    current = encoding_index(encodings, font);
                },
                Err(e) => {
                    out.push(Err(e));
                    current = None;
                    assert(chunk_views(out@) =~= before.push(Err(e)));
                },
            }
            if !text_is_empty(&text) {
                let ghost mid = chunk_views(out@);
                let done = text;
                text = String::new();
                out.push(Ok(done));
                assert(chunk_views(out@) =~= mid.push(Ok(done@)));
            }
        } else if crate::object::bytes_equal(name, tj.as_slice()) || crate::object::bytes_equal(name, tj_array.as_slice()) {
            match current {
                Some(i) => {
                    let res = collect_text(&mut text, &encodings[i].1, &op.operands);
                    match res {
                        Err(e) => {
                            out.push(Err(e));
                            assert(chunk_views(out@) =~= before.push(Err(e)));
                        },
                        Ok(()) => {},
                    }
                },
                None => {},
            }
        } else if crate::object::bytes_equal(name, et.as_slice()) {
            if !ends_with_char(text.as_str(), '\n') {
                proof {
                    reveal_strlit("\n");
                }
                text.append("\n");
            }
        }
        k = k + 1;
    }
    if !text_is_empty(&text) {
        let ghost mid = chunk_views(out@);
        out.push(Ok(text));
        assert(chunk_views(out@) =~= mid.push(Ok(text@)));
    }
    Ok(out)
}


/// The font dictionary of the resources `res`: its /Font entry, directly
/// or by reference.
pub open spec fn font_dict_of(objects: Map<ObjectId, Object>, res: Dictionary) -> Option<Dictionary> {
    match entries_get(res@, font_bytes()) {
        Some(Object::Reference(id)) => match object_of(objects, id) {
            Ok(Object::Dictionary(d)) => Some(d),
            _ => None,
        },
        Some(Object::Dictionary(d)) => Some(d),
        _ => None,
    }
}

/// The font that the value `v` of an entry of a font dictionary gives:
/// the dictionary it is or refers to.
pub open spec fn font_of(objects: Map<ObjectId, Object>, v: Object) -> Option<Dictionary> {
    match v {
        Object::Reference(id) => match object_of(objects, id) {
            Ok(Object::Dictionary(d)) => Some(d),
            _ => None,
        },
        Object::Dictionary(d) => Some(d),
        _ => None,
    }
}

/// The fonts `fonts` with those of the first `n` entries of a font
/// dictionary added: each font under a name not taken yet.
pub open spec fn fonts_added(objects: Map<ObjectId, Object>, fonts: Seq<(Seq<u8>, Dictionary)>,
    entries: Seq<(Seq<u8>, Object)>, n: nat) -> Seq<(Seq<u8>, Dictionary)>
    decreases n,
{
    if n == 0 || n > entries.len() {
        fonts
    } else {
        let f = fonts_added(objects, fonts, entries, (n - 1) as nat);
        let (name, v) = entries[n - 1];
        if find_key(f, name) is None && font_of(objects, v) is Some {
            f.push((name, font_of(objects, v)->0))
        } else {
            f
        }
    }
}

/// The fonts `fonts` with those of the resources `res` added.
pub open spec fn fonts_from(objects: Map<ObjectId, Object>, fonts: Seq<(Seq<u8>, Dictionary)>, res: Dictionary)
    -> Seq<(Seq<u8>, Dictionary)> {
    match font_dict_of(objects, res) {
        Some(fd) => fonts_added(objects, fonts, fd@, fd@.len()),
        None => fonts,
    }
}

/// The fonts `fonts` with those of the resource dictionaries that the
/// first `n` of `ids` name added.
pub open spec fn fonts_of_ids(objects: Map<ObjectId, Object>, fonts: Seq<(Seq<u8>, Dictionary)>, ids: Seq<ObjectId>,
    n: nat) -> Seq<(Seq<u8>, Dictionary)>
    decreases n,
{
    if n == 0 || n > ids.len() {
        fonts
    } else {
        let f = fonts_of_ids(objects, fonts, ids, (n - 1) as nat);
        match object_of(objects, ids[n - 1]) {
            Ok(Object::Dictionary(r)) => fonts_from(objects, f, r),
            _ => f,
        }
    }
}

/// The fonts of the page `page`, whose page tree above it ends after `n`
/// nodes: by name, those of its own /Resources dictionary first, then
/// those of the resource dictionaries that it and the nodes above it refer
/// to, nearest first; a name keeps the first font found for it.
pub open spec fn page_fonts(objects: Map<ObjectId, Object>, page: Dictionary, n: nat) -> Seq<(Seq<u8>, Dictionary)> {
    let f0 = match direct_resources(page) {
        Some(r) => fonts_from(objects, Seq::empty(), r),
        None => Seq::empty(),
    };
    fonts_of_ids(objects, f0, resource_ids(objects, page, n), resource_ids(objects, page, n).len())
}

/// The fonts of a vector of fonts by name, names by their bytes.
pub open spec fn fonts_view(v: Seq<(Vec<u8>, &Dictionary)>) -> Seq<(Seq<u8>, Dictionary)> {
    Seq::new(v.len(), |i: int| (v[i].0@, *v[i].1))
}

/// Whether `fonts` holds a font named `name`.
fn font_listed(fonts: &Vec<(Vec<u8>, &Dictionary)>, name: &[u8]) -> (r: bool)
    ensures
        r == find_key(fonts_view(fonts@), name@) is Some,
{
    let ghost fv = fonts_view(fonts@);
    let mut i: usize = 0;
    while i < fonts.len()
        invariant
            i <= fonts@.len(),
            fv == fonts_view(fonts@),
            forall|j: int| 0 <= j < i ==> fv[j].0 != name@,
        decreases fonts@.len() - i,
    {
        assert(fv[i as int].0 == fonts@[i as int].0@);
        if crate::object::bytes_equal(fonts[i].0.as_slice(), name) {
            proof {
                lemma_find_key(fv, name@);
            }
            return true;
        }
        i = i + 1;
    }
    proof {
        lemma_find_key(fv, name@);
    }
    false
}

impl Document {
    /// Adds the fonts of the resources `resources` to `fonts`, each under a
    /// name not taken yet.
    fn collect_fonts_from_resources<'a>(&'a self, resources: &'a Dictionary, fonts: &mut Vec<(Vec<u8>, &'a Dictionary)>)
        ensures
            fonts_view(final(fonts)@) == fonts_from(self.objects@, fonts_view(old(fonts)@), *resources),
    {
        let font_dict: Option<&Dictionary> = match resources.get(font_key().as_slice()) {
            Ok(Object::Reference(id)) => match self.get_dictionary(*id) {
                Ok(d) => Some(d),
                Err(_) => None,
            },
            Ok(Object::Dictionary(d)) => Some(d),
            _ => None,
        };
        match font_dict {
            Some(fd) => {
                let entries = fd.entries();
                let ghost ev = fd@;
                let ghost f0 = fonts_view(fonts@);
                let mut i: usize = 0;
                while i < entries.len()
                    invariant
                        i <= entries@.len(),
                        entries@ == dict_pairs(*fd),
                        ev == fd@,
                        fonts_view(fonts@) == fonts_added(self.objects@, f0, ev, i as nat),
                    decreases entries@.len() - i,
                {
                    let name = &entries[i].0;
                    let font: Option<&Dictionary> = match &entries[i].1 {
                        Object::Reference(id) => match self.get_dictionary(*id) {
                            Ok(d) => Some(d),
                            Err(_) => None,
                        },
                        Object::Dictionary(d) => Some(d),
                        _ => None,
                    };
                    assert(ev[i as int] == (entries@[i as int].0@, entries@[i as int].1));
                    if !font_listed(fonts, name.as_slice()) {
                        match font {
                            Some(f) => {
                                let ghost before = fonts_view(fonts@);
                                fonts.push((copy_bytes(name), f));
                                assert(fonts_view(fonts@) =~= before.push((name@, *f)));
                            },
                            None => {},
                        }
                    }
                    i = i + 1;
                }
            },
            None => {},
        }
    }

    /// The fonts of a page by name: those of its own /Resources dictionary
    /// first, then those of the resource dictionaries that it and the page
    /// tree nodes above it refer to, nearest first; a name keeps the first
    /// font found for it.
    pub fn get_page_fonts(&self, page_id: ObjectId) -> (r: Vec<(Vec<u8>, &Dictionary)>)
        requires
            object_of(self.objects@, page_id) matches Ok(Object::Dictionary(page)) ==> exists|n: nat| parents_end(self.objects@,
                page, n),
        ensures
            match object_of(self.objects@, page_id) {
                Ok(Object::Dictionary(page)) => forall|n: nat| #[trigger] parents_end(self.objects@, page, n)
                    ==> fonts_view(r@) == page_fonts(self.objects@, page, n),
                _ => r@.len() == 0,
            },
    {
        let mut fonts: Vec<(Vec<u8>, &Dictionary)> = Vec::new();
        let (resource_dict, resource_ids) = self.get_page_resources(page_id);
        assert(fonts_view(fonts@) =~= Seq::<(Seq<u8>, Dictionary)>::empty());
        match resource_dict {
            Some(resources) => self.collect_fonts_from_resources(resources, &mut fonts),
            None => {},
        }
        let ghost f0 = fonts_view(fonts@);
        let mut i: usize = 0;
        while i < resource_ids.len()
            invariant
                i <= resource_ids@.len(),
                fonts_view(fonts@) == fonts_of_ids(self.objects@, f0, resource_ids@, i as nat),
            decreases resource_ids@.len() - i,
        {
            match self.get_dictionary(resource_ids[i]) {
                Ok(resources) => self.collect_fonts_from_resources(resources, &mut fonts),
                Err(_) => {},
            }
            i = i + 1;
        }
        fonts
    }
}


/// The operands `vals` with each string among the first `n` that decodes
/// in `enc` to `from` replaced by `to`, in its format; or the error of the
/// first string that does not decode.
pub open spec fn replaced_values(enc: Encoding, vals: Seq<PdfValue>, from: Seq<char>, to: Seq<u8>, n: nat)
    -> Result<Seq<PdfValue>, Error>
    decreases n,
{
    if n == 0 || n > vals.len() {
        Ok(vals)
    } else {
        match replaced_values(enc, vals, from, to, (n - 1) as nat) {
            Err(e) => Err(e),
            Ok(vs) => match vals[n - 1] {
                PdfValue::Str(b, f) => match decoded_text(enc, b) {
                    Err(e) => Err(e),
                    Ok(t) => if t == from {
                        Ok(vs.update(n - 1, PdfValue::Str(to, f)))
                    } else {
                        Ok(vs)
                    },
                },
                _ => Ok(vs),
            },
        }
    }
}

/// Whether two texts are equal, by their UTF-8 bytes.
fn same_text(a: &str, b: &str) -> (r: bool)
    ensures
        r == (a@ == b@),
{
    proof {
        vstd::utf8::encode_utf8_decode_utf8(a@);
        vstd::utf8::encode_utf8_decode_utf8(b@);
    }
    crate::object::bytes_equal(a.as_bytes(), b.as_bytes())
}

/// Replaces each string operand of `operation` that decodes in `encoding`
/// to `text_to_replace` by `replacement` encoded, stopping at the first
/// string that does not decode.
pub fn try_to_replace_encoded_text(operation: &mut Operation, encoding: &Encoding, text_to_replace: &str,
    replacement: &str) -> (r: Result<(), Error>)
    requires
        encoding_fits(*encoding),
        !(*encoding is UnicodeMapEncoding),
    ensures
        final(operation).operator == old(operation).operator,
        match replaced_values(*encoding, values_of(old(operation).operands@), text_to_replace@,
            encoded_text(*encoding, replacement@), old(operation).operands@.len()) {
            Ok(vs) => r is Ok && values_of(final(operation).operands@) == vs,
            Err(e) => r == Err::<(), Error>(e),
        },
{
    let ghost vals0 = values_of(operation.operands@);
    let ghost to = encoded_text(*encoding, replacement@);
    let mut i: usize = 0;
    while i < operation.operands.len()
        invariant
            i <= operation.operands@.len(),
            operation.operands@.len() == vals0.len(),
            operation.operator == old(operation).operator,
            encoding_fits(*encoding),
            !(*encoding is UnicodeMapEncoding),
            vals0 == values_of(old(operation).operands@),
            to == encoded_text(*encoding, replacement@),
            replaced_values(*encoding, vals0, text_to_replace@, to, i as nat) == Ok::<Seq<PdfValue>, Error>(
                values_of(operation.operands@)),
            forall|j: int| i <= j < vals0.len() ==> #[trigger] values_of(operation.operands@)[j] == vals0[j],
        decreases operation.operands@.len() - i,
    {
        let ghost before = values_of(operation.operands@);
        assert(before[i as int] == vals0[i as int]);
        assert(before[i as int] == operation.operands@[i as int]@);
        let found: Option<crate::object::StringFormat> = match &operation.operands[i] {
            Object::String(bytes, format) => {
                match Document::decode_text(encoding, bytes.as_slice()) {
                    Ok(t) => {
                        if same_text(t.as_str(), text_to_replace) {
                            Some(*format)
                        } else {
                            None
                        }
                    },
                    Err(e) => {
                        proof {
                            lemma_replace_stops(*encoding, vals0, text_to_replace@, to, (i + 1) as nat,
                                vals0.len());
                        }
                        return Err(e);
                    },
                }
            },
            _ => None,
        };
        match found {
            Some(format) => {
                let encoded = encoding.string_to_bytes(replacement);
                operation.operands.set(i, Object::String(encoded, format));
                assert(values_of(operation.operands@) =~= before.update(i as int, PdfValue::Str(to, format)));
            },
            None => {
                assert(values_of(operation.operands@) =~= before);
            },
        }
        i = i + 1;
    }
    Ok(())
}

/// Once replacing has stopped at a string that does not decode, more
/// operands change nothing.
proof fn lemma_replace_stops(enc: Encoding, vals: Seq<PdfValue>, from: Seq<char>, to: Seq<u8>, k: nat, m: nat)
    requires
        k <= m <= vals.len(),
        replaced_values(enc, vals, from, to, k) is Err,
    ensures
        replaced_values(enc, vals, from, to, m) == replaced_values(enc, vals, from, to, k),
    decreases m,
{
    if m > k {
        lemma_replace_stops(enc, vals, from, to, k, (m - 1) as nat);
    }
}

/// The bytes that stand for `text` in `enc`, as `Encoding::string_to_bytes`
/// gives them.
pub open spec fn encoded_text(enc: Encoding, text: Seq<char>) -> Seq<u8> {
    match enc {
        Encoding::OneByteEncoding(map) => encoded_units(map@, utf16_units(text), utf16_units(text).len()),
        Encoding::SimpleEncoding(name) => if is_utf16_name(name@) {
            seq![0xFEu8, 0xFF] + units_be(utf16_units(text))
        } else {
            encode_utf8(text)
        },
        Encoding::UnicodeMapEncoding(_) => Seq::empty(),
    }
}

/// The operands of each operation of `ops`.
pub open spec fn operands_of(ops: Seq<Operation>) -> Seq<Seq<PdfValue>> {
    Seq::new(ops.len(), |i: int| values_of(ops[i].operands@))
}

/// What replacing `from` by `to` gives after the first `n` operations
/// `ops`, with `encs` the encodings of the fonts by name: the operands of
/// every operation, those of each `Tj` shown in a known font with each
/// string that decodes to `from` replaced, and the encoding in use (its
/// index in `encs`); or the error that stops it (`None` for a `Tf` without
/// an operand).
pub open spec fn replace_after(ops: Seq<Operation>, encs: Seq<(Seq<u8>, Encoding)>, from: Seq<char>, to: Seq<char>,
    n: nat) -> Result<(Seq<Seq<PdfValue>>, Option<int>), Option<Error>>
    decreases n,
{
    if n == 0 || n > ops.len() {
        Ok((operands_of(ops), None))
    } else {
        match replace_after(ops, encs, from, to, (n - 1) as nat) {
            Err(e) => Err(e),
            Ok((vals, cur)) => {
                let op = ops[n - 1];
                let name = encode_utf8(op.operator@);
                if name == tf_op() {
                    if op.operands@.len() == 0 {
                        Err(None)
                    } else {
                        match op.operands@[0] {
                            Object::Name(f) => Ok((vals, find_key(encs, f@))),
                            o => Err(Some(Error::ObjectType { expected: "Name", found: variant_name(o) })),
                        }
                    }
                } else if name == tj_op() {
                    match cur {
                        Some(i) => match replaced_values(encs[i].1, vals[n - 1], from, encoded_text(encs[i].1, to),
                            vals[n - 1].len()) {
                            Ok(vs) => Ok((vals.update(n - 1, vs), cur)),
                            Err(e) => Err(Some(e)),
                        },
                        None => Ok((vals, cur)),
                    }
                } else {
                    Ok((vals, cur))
                }
            },
        }
    }
}

/// Once replacing has stopped at an error, more operations change
/// nothing.
proof fn lemma_replace_after_stops(ops: Seq<Operation>, encs: Seq<(Seq<u8>, Encoding)>, from: Seq<char>, to: Seq<char>,
    k: nat, m: nat)
    requires
        k <= m <= ops.len(),
        replace_after(ops, encs, from, to, k) is Err,
    ensures
        replace_after(ops, encs, from, to, m) == replace_after(ops, encs, from, to, k),
    decreases m,
{
    if m > k {
        lemma_replace_after_stops(ops, encs, from, to, k, (m - 1) as nat);
    }
}

/// Replaces, in the operations of `content`, each string shown by `Tj` in a
/// font of `encodings` that decodes to `text` by `other_text` encoded in
/// that font; an error where a `Tf` has no operand or names no font by a
/// name, or a string does not decode.
pub fn replace_text_in_content(content: &mut Content, encodings: &Vec<(Vec<u8>, Encoding)>, text: &str,
    other_text: &str) -> (r: Result<(), Error>)
    requires
        forall|i: int| 0 <= i < encodings@.len() ==> encoding_fits(#[trigger] encodings@[i].1)
            && !(encodings@[i].1 is UnicodeMapEncoding),
    ensures
        final(content).operations@.len() == old(content).operations@.len(),
        forall|i: int| 0 <= i < old(content).operations@.len()
            ==> #[trigger] final(content).operations@[i].operator == old(content).operations@[i].operator,
        match replace_after(old(content).operations@, encodings_view(encodings@), text@, other_text@,
            old(content).operations@.len()) {
            Ok((vals, _)) => r is Ok && operands_of(final(content).operations@) == vals,
            Err(None) => r matches Err(e) && e matches Error::Syntax(s) && s@ == "missing font operand"@,
            Err(Some(e)) => r == Err::<(), Error>(e),
        },
{
    let ghost ops0 = content.operations@;
    let ghost ev = encodings_view(encodings@);
    let mut current: Option<usize> = None;
    let mut k: usize = 0;
    while k < content.operations.len()
        invariant
            k <= content.operations@.len(),
            content.operations@.len() == ops0.len(),
            ev == encodings_view(encodings@),
            forall|i: int| 0 <= i < encodings@.len() ==> encoding_fits(#[trigger] encodings@[i].1)
                && !(encodings@[i].1 is UnicodeMapEncoding),
            forall|i: int| 0 <= i < ops0.len() ==> #[trigger] content.operations@[i].operator == ops0[i].operator,
            forall|i: int| k <= i < ops0.len() ==> #[trigger] content.operations@[i].operands == ops0[i].operands,
            current matches Some(i) ==> i < encodings@.len(),
            ops0 == old(content).operations@,
            replace_after(ops0, ev, text@, other_text@, k as nat) == Ok::<(Seq<Seq<PdfValue>>, Option<int>), Option<Error>>(
                (operands_of(content.operations@), match current { Some(i) => Some(i as int), None => None::<int> })),
        decreases ops0.len() - k,
    {
        let name = content.operations[k].operator.as_str().as_bytes();
        let tf: [u8; 2] = [84, 102];
        let tj: [u8; 2] = [84, 106];
        assert(tf@ =~= tf_op() && tj@ =~= tj_op());
        assert(content.operations@[k as int].operator == ops0[k as int].operator);
        if crate::object::bytes_equal(name, tf.as_slice()) {
            if content.operations[k].operands.len() == 0 {
                let msg = "missing font operand".to_owned();
                proof {
                    lemma_replace_after_stops(ops0, ev, text@, other_text@, (k + 1) as nat, ops0.len());
                }
                return Err(Error::Syntax(msg));
            }
            match content.operations[k].operands[0].as_name() {
                Ok(font) => {
                    current = encoding_index(encodings, font);
                },
                Err(e) => {
                    proof {
                        lemma_replace_after_stops(ops0, ev, text@, other_text@, (k + 1) as nat, ops0.len());
                    }
                    return Err(e);
                },
            }
        } else if crate::object::bytes_equal(name, tj.as_slice()) {
            match current {
                Some(i) => {
                    let ghost before = content.operations@;
                    let mut op = content.operations.remove(k);
                    let res = try_to_replace_encoded_text(&mut op, &encodings[i].1, text, other_text);
                    content.operations.insert(k, op);
                    assert(content.operations@ =~= before.update(k as int, op));
                    match res {
                        Ok(()) => {
                            assert(operands_of(content.operations@) =~= operands_of(before).update(k as int,
                                values_of(op.operands@)));
                        },
                        Err(e) => {
                            proof {
                                lemma_replace_after_stops(ops0, ev, text@, other_text@, (k + 1) as nat, ops0.len());
                            }
                            return Err(e);
                        },
                    }
                },
                None => {},
            }
        }
        k = k + 1;
    }
    Ok(())
}

} // verus!

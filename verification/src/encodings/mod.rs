//! Text in PDF strings: one-byte encodings, UTF-16BE and UTF-8.

pub mod cmap;

use vstd::prelude::*;
use vstd::utf8::encode_utf8 as utf8_bytes;
use crate::error::Error;
use self::cmap::{ToUnicodeCMap, BfRangeTarget, REPLACEMENT_CHAR, lookup_fits, target_text, is_run_start};

verus! {

/// A one-byte encoding: the UTF-16 code unit that each byte stands for, if
/// any.
pub type CodedCharacterSet = [Option<u16>; 256];

/// Whether `u` is a UTF-16 surrogate code unit.
pub open spec fn is_surrogate(u: u16) -> bool {
    0xD800 <= u <= 0xDFFF
}

/// The UTF-16 code units of a character: one below U+10000, else a
/// surrogate pair.
pub open spec fn char_units(c: char) -> Seq<u16> {
    let v = c as u32;
    if v < 0x10000 {
        seq![v as u16]
    } else {
        let w = v - 0x10000;
        seq![(0xD800 + w / 1024) as u16, (0xDC00 + w % 1024) as u16]
    }
}

/// The UTF-16 code units of a text.
pub open spec fn utf16_units(chars: Seq<char>) -> Seq<u16>
    decreases chars.len(),
{
    if chars.len() == 0 {
        Seq::empty()
    } else {
        utf16_units(chars.drop_last()) + char_units(chars.last())
    }
}

/// The code units that the first `n` bytes stand for in `encoding`, bytes
/// that stand for none dropped.
pub open spec fn mapped_units(encoding: Seq<Option<u16>>, bytes: Seq<u8>, n: nat) -> Seq<u16>
    decreases n,
{
    if n == 0 || n > bytes.len() {
        Seq::empty()
    } else {
        mapped_units(encoding, bytes, (n - 1) as nat) + match encoding[bytes[n - 1] as int] {
            Some(u) => seq![u],
            None => Seq::empty(),
        }
    }
}

/// The first byte from `i` on that stands for `u` in `encoding`.
pub open spec fn code_of(encoding: Seq<Option<u16>>, u: u16, i: int) -> Option<u8>
    decreases 256 - i,
{
    if !(0 <= i < 256) || i >= encoding.len() {
        None
    } else if encoding[i] == Some(u) {
        Some(i as u8)
    } else {
        code_of(encoding, u, i + 1)
    }
}

/// The bytes of the first `n` code units in `encoding`, units that no byte
/// stands for dropped.
pub open spec fn encoded_units(encoding: Seq<Option<u16>>, units: Seq<u16>, n: nat) -> Seq<u8>
    decreases n,
{
    if n == 0 || n > units.len() {
        Seq::empty()
    } else {
        encoded_units(encoding, units, (n - 1) as nat) + match code_of(encoding, units[n - 1], 0) {
            Some(b) => seq![b],
            None => Seq::empty(),
        }
    }
}

/// Each code unit as two bytes, most significant first.
pub open spec fn units_be(units: Seq<u16>) -> Seq<u8>
    decreases units.len(),
{
    if units.len() == 0 {
        Seq::empty()
    } else {
        units_be(units.drop_last()) + seq![(units.last() / 256) as u8, (units.last() % 256) as u8]
    }
}

/// The character that a surrogate pair stands for.
pub open spec fn pair_char(hi: u16, lo: u16) -> char {
    (0x10000 + (hi - 0xD800) * 1024 + (lo - 0xDC00)) as char
}

/// The text that `units[i..]` encode in UTF-16: a unit that is no surrogate
/// is one character, a high surrogate followed by a low one is one
/// character; nothing where a surrogate stands unpaired.
pub open spec fn utf16_text_from(units: Seq<u16>, i: int) -> Option<Seq<char>>
    decreases units.len() - i,
{
    if i < 0 || i >= units.len() {
        Some(Seq::empty())
    } else if !is_surrogate(units[i]) {
        match utf16_text_from(units, i + 1) {
            Some(t) => Some(seq![units[i] as char] + t),
            None => None,
        }
    } else if units[i] <= 0xDBFF && i + 1 < units.len() && 0xDC00 <= units[i + 1] <= 0xDFFF {
        match utf16_text_from(units, i + 2) {
            Some(t) => Some(seq![pair_char(units[i], units[i + 1])] + t),
            None => None,
        }
    } else {
        None
    }
}

/// The text that `units` encode in UTF-16, where they are valid UTF-16.
pub open spec fn utf16_text(units: Seq<u16>) -> Option<Seq<char>> {
    utf16_text_from(units, 0)
}

/// The first byte from `i` on that `code_of` finds stands for `u`.
proof fn lemma_code_of(encoding: Seq<Option<u16>>, u: u16, i: int)
    ensures
        code_of(encoding, u, i) matches Some(b) ==> 0 <= b < encoding.len() && encoding[b as int] == Some(u),
    decreases 256 - i,
{
    if 0 <= i < 256 && i < encoding.len() && encoding[i] != Some(u) {
        lemma_code_of(encoding, u, i + 1);
    }
}

/// Mapping the first `n` bytes looks at those bytes alone.
proof fn lemma_mapped_prefix(encoding: Seq<Option<u16>>, a: Seq<u8>, b: Seq<u8>, n: nat)
    requires
        n <= a.len(),
        n <= b.len(),
        a.subrange(0, n as int) == b.subrange(0, n as int),
    ensures
        mapped_units(encoding, a, n) == mapped_units(encoding, b, n),
    decreases n,
{
    if n > 0 {
        assert(a.subrange(0, n - 1) =~= a.subrange(0, n as int).subrange(0, n - 1));
        assert(b.subrange(0, n - 1) =~= b.subrange(0, n as int).subrange(0, n - 1));
        assert(a[n - 1] == a.subrange(0, n as int)[n - 1]);
        assert(b[n - 1] == b.subrange(0, n as int)[n - 1]);
        lemma_mapped_prefix(encoding, a, b, (n - 1) as nat);
    }
}

/// Where each of the first `n` units has a byte, mapping their bytes back
/// gives the units.
proof fn lemma_encoded_mapped(encoding: Seq<Option<u16>>, units: Seq<u16>, n: nat)
    requires
        n <= units.len(),
        forall|k: int| 0 <= k < units.len() ==> #[trigger] code_of(encoding, units[k], 0) is Some,
    ensures
        encoded_units(encoding, units, n).len() == n,
        mapped_units(encoding, encoded_units(encoding, units, n), n) == units.subrange(0, n as int),
    decreases n,
{
    if n > 0 {
        lemma_encoded_mapped(encoding, units, (n - 1) as nat);
        let prev = encoded_units(encoding, units, (n - 1) as nat);
        let b = code_of(encoding, units[n - 1], 0)->0;
        lemma_code_of(encoding, units[n - 1], 0);
        let bs = encoded_units(encoding, units, n);
        assert(bs == prev + seq![b]);
        assert(bs.subrange(0, n - 1) =~= prev.subrange(0, n - 1));
        assert(prev.subrange(0, n - 1) =~= prev);
        lemma_mapped_prefix(encoding, bs, prev, (n - 1) as nat);
        assert(bs[n - 1] == b);
        assert(units.subrange(0, n as int) =~= units.subrange(0, n - 1).push(units[n - 1]));
    }
}

/// Decoding from `pre.len()` on in `pre + rest` decodes `rest`.
proof fn lemma_text_shift(pre: Seq<u16>, rest: Seq<u16>, i: int)
    requires
        0 <= i <= rest.len(),
    ensures
        utf16_text_from(pre + rest, pre.len() + i) == utf16_text_from(rest, i),
    decreases rest.len() - i,
{
    let all = pre + rest;
    if i < rest.len() {
        assert(all[pre.len() + i] == rest[i]);
        if i + 1 < rest.len() {
            assert(all[pre.len() + i + 1] == rest[i + 1]);
        }
        lemma_text_shift(pre, rest, i + 1);
        if i + 2 <= rest.len() {
            lemma_text_shift(pre, rest, i + 2);
        }
    }
}

/// The code units of a character decode to it, before what follows.
proof fn lemma_char_decodes(c: char, rest: Seq<u16>)
    requires
        utf16_text(rest) is Some,
    ensures
        utf16_text(char_units(c) + rest) == Some(seq![c] + utf16_text(rest)->0),
{
    let all = char_units(c) + rest;
    let n = char_units(c).len();
    lemma_text_shift(char_units(c), rest, 0);
    vstd::utf8::char_is_scalar(c);
    let v = c as u32;
    if v < 0x10000 {
        assert(all[0] == v as u16);
        assert(!is_surrogate(all[0]));
        assert((all[0] as char) == c);
    } else {
        let w = v - 0x10000;
        let hi = (0xD800 + w / 1024) as u16;
        let lo = (0xDC00 + w % 1024) as u16;
        assert(w < 0x100000);
        assert(w / 1024 < 1024) by (nonlinear_arith)
            requires w < 0x100000;
        assert(w == (w / 1024) * 1024 + w % 1024) by (nonlinear_arith);
        assert(all[0] == hi && all[1] == lo);
        assert(pair_char(hi, lo) == c);
    }
}

/// The code units of a text decode to it.
proof fn lemma_units_decode(text: Seq<char>)
    ensures
        utf16_text(utf16_units(text)) == Some(text),
    decreases text.len(),
{
    if text.len() == 0 {
    } else {
        let rest = text.subrange(1, text.len() as int);
        lemma_units_decode(rest);
        lemma_units_front(text);
        lemma_char_decodes(text[0], utf16_units(rest));
        assert(seq![text[0]] + rest =~= text);
    }
}

/// The code units of a text: those of its first character, then those of
/// the rest.
proof fn lemma_units_front(text: Seq<char>)
    requires
        text.len() > 0,
    ensures
        utf16_units(text) == char_units(text[0]) + utf16_units(text.subrange(1, text.len() as int)),
    decreases text.len(),
{
    if text.len() == 1 {
        assert(text.drop_last() =~= Seq::<char>::empty());
        assert(text.subrange(1, 1) =~= Seq::<char>::empty());
    } else {
        let d = text.drop_last();
        lemma_units_front(d);
        assert(d.subrange(1, d.len() as int) =~= text.subrange(1, text.len() as int).drop_last());
        assert(text.subrange(1, text.len() as int).last() == text.last());
    }
}

/// Text that `string_to_bytes` writes in a one-byte encoding reads back
/// with `bytes_to_string` as the same text, where a byte stands for each
/// UTF-16 code unit of the text.
pub proof fn lemma_bytes_text_round_trip(encoding: Seq<Option<u16>>, text: Seq<char>)
    requires
        forall|k: int| 0 <= k < utf16_units(text).len() ==> #[trigger] code_of(encoding, utf16_units(text)[k], 0) is Some,
    ensures
        ({
            let bytes = encoded_units(encoding, utf16_units(text), utf16_units(text).len());
            utf16_text(mapped_units(encoding, bytes, bytes.len())) == Some(text)
        }),
{
    let units = utf16_units(text);
    lemma_encoded_mapped(encoding, units, units.len());
    assert(units.subrange(0, units.len() as int) =~= units);
    lemma_units_decode(text);
}

/// Makes a `String` of UTF-16 code units with `String::from_utf16`, which
/// decodes them, a surrogate pair to one character, and fails where a
/// surrogate stands unpaired.
#[verifier::external_body]
fn string_from_utf16(units: &[u16]) -> (r: Option<String>)
    ensures
        r is Some <==> utf16_text(units@) is Some,
        r matches Some(s) ==> s@ == utf16_text(units@)->0,
{
    String::from_utf16(units).ok()
}

/// What `encoding_rs::UTF_16BE.decode` makes of `bytes`: the text, with BOM
/// sniffing and malformed sequences replaced.
pub uninterp spec fn utf16be_text(bytes: Seq<u8>) -> Seq<char>;

/// Decodes `bytes` with `encoding_rs::UTF_16BE.decode`. The text is named.
#[verifier::external_body]
fn decode_utf16be(bytes: &[u8]) -> (r: String)
    ensures
        r@ == utf16be_text(bytes@),
{
    encoding_rs::UTF_16BE.decode(bytes).0.to_string()
}

/// The text that `bytes` stand for in `encoding`; bytes that stand for
/// nothing are dropped. The code units must form valid UTF-16.
pub fn bytes_to_string(encoding: &CodedCharacterSet, bytes: &[u8]) -> (r: String)
    requires
        utf16_text(mapped_units(encoding@, bytes@, bytes@.len())) is Some,
    ensures
        r@ == utf16_text(mapped_units(encoding@, bytes@, bytes@.len()))->0,
{
    let mut units: Vec<u16> = Vec::new();
    let mut i: usize = 0;
    while i < bytes.len()
        invariant
            i <= bytes@.len(),
            encoding@.len() == 256,
            units@ == mapped_units(encoding@, bytes@, i as nat),
        decreases bytes@.len() - i,
    {
        let b = bytes[i];
        match encoding[b as usize] {
            Some(u) => {
                units.push(u);
            },
            None => {},
        }
        i = i + 1;
        assert(units@ =~= mapped_units(encoding@, bytes@, i as nat));
    }
    match string_from_utf16(units.as_slice()) {
        Some(s) => s,
        None => String::new(),
    }
}

/// The UTF-16 code units of one character.
fn units_of(c: char) -> (r: Vec<u16>)
    ensures
        r@ == char_units(c),
{
    let v = c as u32;
    if v < 0x10000 {
        let r = vec![v as u16];
        assert(r@ =~= char_units(c));
        r
    } else {
        let w = v - 0x10000;
        proof {
            vstd::utf8::char_is_scalar(c);
        }
        let r = vec![(0xD800 + w / 1024) as u16, (0xDC00 + w % 1024) as u16];
        assert(r@ =~= char_units(c));
        r
    }
}

/// The UTF-16 code units of a text.
fn encode_utf16(text: &str) -> (r: Vec<u16>)
    ensures
        r@ == utf16_units(text@),
{
    let mut units: Vec<u16> = Vec::new();
    let ghost chars = text@;
    proof {
        vstd::string::axiom_spec_iter(text);
    }
    for c in it: text.chars()
        invariant
            it.seq() == chars,
            units@ == utf16_units(chars.subrange(0, it.index() as int)),
    {
        let ghost k = it.index();
        let more = units_of(c);
        let mut j: usize = 0;
        let ghost start = units@;
        while j < more.len()
            invariant
                j <= more@.len(),
                units@ == start + more@.subrange(0, j as int),
            decreases more@.len() - j,
        {
            units.push(more[j]);
            j = j + 1;
            assert(units@ =~= start + more@.subrange(0, j as int));
        }
        assert(more@.subrange(0, more@.len() as int) =~= more@);
        assert(chars.subrange(0, k + 1).drop_last() =~= chars.subrange(0, k as int));
    }
    assert(chars.subrange(0, chars.len() as int) =~= chars);
    units
}

/// The first byte that stands for `u` in `encoding`.
fn find_code(encoding: &CodedCharacterSet, u: u16) -> (r: Option<u8>)
    ensures
        r == code_of(encoding@, u, 0),
{
    let mut k: usize = 0;
    while k < 256
        invariant
            k <= 256,
            encoding@.len() == 256,
            code_of(encoding@, u, 0) == code_of(encoding@, u, k as int),
        decreases 256 - k,
    {
        let hit = match encoding[k] {
            Some(x) => x == u,
            None => false,
        };
        if hit {
            return Some(k as u8);
        }
        k = k + 1;
    }
    None
}

/// The bytes that stand for `text` in `encoding`: each UTF-16 code unit of
/// the text as the first byte that stands for it; units that no byte stands
/// for are dropped.
pub fn string_to_bytes(encoding: &CodedCharacterSet, text: &str) -> (r: Vec<u8>)
    ensures
        r@ == encoded_units(encoding@, utf16_units(text@), utf16_units(text@).len()),
{
    let units = encode_utf16(text);
    let mut out: Vec<u8> = Vec::new();
    let mut i: usize = 0;
    while i < units.len()
        invariant
            i <= units@.len(),
            encoding@.len() == 256,
            out@ == encoded_units(encoding@, units@, i as nat),
        decreases units@.len() - i,
    {
        let u = units[i];
        let found = find_code(encoding, u);
        match found {
            Some(b) => out.push(b),
            None => {},
        }
        i = i + 1;
        assert(out@ =~= encoded_units(encoding@, units@, i as nat));
    }
    out
}

/// Encodes the given `str` to UTF-16BE, after the byte order mark.
/// The recommended way to encode text strings, as it supports all of
/// unicode and all major PDF readers support it.
pub fn encode_utf16_be(text: &str) -> (r: Vec<u8>)
    ensures
        r@ == seq![0xFEu8, 0xFF] + units_be(utf16_units(text@)),
{
    let units = encode_utf16(text);
    let mut bytes: Vec<u8> = vec![0xFE, 0xFF];
    let mut i: usize = 0;
    while i < units.len()
        invariant
            i <= units@.len(),
            bytes@ == seq![0xFEu8, 0xFF] + units_be(units@.subrange(0, i as int)),
        decreases units@.len() - i,
    {
        let u = units[i];
        bytes.push((u / 256) as u8);
        bytes.push((u % 256) as u8);
        i = i + 1;
        assert(units@.subrange(0, i as int).drop_last() =~= units@.subrange(0, i - 1));
        assert(bytes@ =~= seq![0xFEu8, 0xFF] + units_be(units@.subrange(0, i as int)));
    }
    assert(units@.subrange(0, units@.len() as int) =~= units@);
    bytes
}

/// The UTF-8 bytes of `text`, without a byte order mark.
pub fn encode_utf8_bytes(text: &str) -> (r: Vec<u8>)
    ensures
        r@ == utf8_bytes(text@),
{
    let b = text.as_bytes();
    let mut out: Vec<u8> = Vec::new();
    let mut i: usize = 0;
    while i < b.len()
        invariant
            i <= b@.len(),
            out@ == b@.subrange(0, i as int),
        decreases b@.len() - i,
    {
        out.push(b[i]);
        i = i + 1;
        assert(out@ =~= b@.subrange(0, i as int));
    }
    assert(b@.subrange(0, b@.len() as int) =~= b@);
    out
}

/// Encodes the given `str` to UTF-8, after the byte order mark. This method
/// of encoding text strings is first specified in PDF 2.0 and reader support
/// is still lacking.
pub fn encode_utf8(text: &str) -> (r: Vec<u8>)
    ensures
        r@ == seq![0xEFu8, 0xBB, 0xBF] + utf8_bytes(text@),
{
    let mut bytes: Vec<u8> = vec![0xEF, 0xBB, 0xBF];
    let b = text.as_bytes();
    let mut i: usize = 0;
    while i < b.len()
        invariant
            i <= b@.len(),
            bytes@ == seq![0xEFu8, 0xBB, 0xBF] + b@.subrange(0, i as int),
        decreases b@.len() - i,
    {
        bytes.push(b[i]);
        i = i + 1;
        assert(bytes@ =~= seq![0xEFu8, 0xBB, 0xBF] + b@.subrange(0, i as int));
    }
    assert(b@.subrange(0, b@.len() as int) =~= b@);
    bytes
}

/// How the text of a font's strings is encoded.
pub enum Encoding<'a> {
    /// A one-byte encoding.
    OneByteEncoding(&'a CodedCharacterSet),
    /// An encoding known by its name.
    SimpleEncoding(&'a [u8]),
    /// The source codes of a ToUnicode CMap.
    UnicodeMapEncoding(ToUnicodeCMap),
}

/// Whether every lookup of a code in `cmap` can be made without overflow.
pub open spec fn cmap_fits(cmap: ToUnicodeCMap) -> bool {
    forall|n: u8, code: u32| 1 <= n <= 4 ==> #[trigger] lookup_fits(cmap.points(n), code)
}

/// The code units that `code` of `n` bytes maps to in `cmap`.
pub open spec fn code_text(cmap: ToUnicodeCMap, code: u32, n: u8) -> Seq<u16> {
    target_text(cmap.points(n)[code], code, choose|s: u32| is_run_start(cmap.points(n), code, s))
}

/// The code units that `code` of `n` bytes maps to in `cmap`, or the
/// replacement character where it maps to none.
pub open spec fn code_text_or_replacement(cmap: ToUnicodeCMap, code: u32, n: u8) -> Seq<u16> {
    if cmap.points(n).contains_key(code) {
        code_text(cmap, code, n)
    } else {
        seq![REPLACEMENT_CHAR]
    }
}

/// What reading the first `i` bytes of `bytes` through `cmap` gives: the
/// code units so far, and the code being gathered with its number of
/// bytes. A code of four bytes that maps to nothing gives the replacement
/// character; a code that maps to text gives it and starts a new code.
pub open spec fn cmap_scan(cmap: ToUnicodeCMap, bytes: Seq<u8>, i: nat) -> (Seq<u16>, u32, u8)
    decreases i,
{
    if i == 0 || i > bytes.len() {
        (Seq::empty(), 0u32, 0u8)
    } else {
        let (out0, code0, n0) = cmap_scan(cmap, bytes, (i - 1) as nat);
        let (out1, code1, n1) = if n0 == 4 {
            (out0 + code_text_or_replacement(cmap, code0, 4), 0u32, 0u8)
        } else {
            (out0, code0, n0)
        };
        let n2 = (n1 + 1) as u8;
        let code2 = (code1 * 256 + bytes[i - 1]) as u32;
        if cmap.points(n2).contains_key(code2) {
            (out1 + code_text(cmap, code2, n2), 0u32, 0u8)
        } else {
            (out1, code2, n2)
        }
    }
}

/// The code units that `bytes` stand for through `cmap`: those of each
/// code, then of the code left over, or the replacement character for it.
pub open spec fn cmap_units(cmap: ToUnicodeCMap, bytes: Seq<u8>) -> Seq<u16> {
    let (out, code, n) = cmap_scan(cmap, bytes, bytes.len());
    if n > 0 {
        out + code_text_or_replacement(cmap, code, n)
    } else {
        out
    }
}

/// A run of codes has one start.
proof fn lemma_run_start_unique(p: Map<u32, BfRangeTarget>, key: u32, s1: u32, s2: u32)
    requires
        is_run_start(p, key, s1),
        is_run_start(p, key, s2),
    ensures
        s1 == s2,
{
    if s1 < s2 {
        assert(p.contains_key((s2 - 1) as u32));
    } else if s2 < s1 {
        assert(p.contains_key((s1 - 1) as u32));
    }
}

/// The code units that looking `code` up in `cmap` gives, or the
/// replacement character.
fn cmap_code_text(cmap: &ToUnicodeCMap, code: u32, n: u8, or_replacement: bool) -> (r: Option<Vec<u16>>)
    requires
        1 <= n <= 4,
        cmap_fits(*cmap),
    ensures
        or_replacement ==> (r matches Some(v) && v@ == code_text_or_replacement(*cmap, code, n)),
        !or_replacement ==> match r {
            Some(v) => cmap.points(n).contains_key(code) && v@ == code_text(*cmap, code, n),
            None => !cmap.points(n).contains_key(code),
        },
{
    assert(lookup_fits(cmap.points(n), code));
    if or_replacement {
        let v = cmap.get_or_replacement_char(code, n);
        proof {
            if cmap.points(n).contains_key(code) {
                let s = choose|s: u32| #[trigger] is_run_start(cmap.points(n), code, s)
                    && v@ == target_text(cmap.points(n)[code], code, s);
                lemma_run_start_unique(cmap.points(n), code, s, choose|s: u32| is_run_start(cmap.points(n), code, s));
            }
        }
        Some(v)
    } else {
        let r = cmap.get(code, n);
        proof {
            if r is Some {
                let v = r->0;
                let s = choose|s: u32| #[trigger] is_run_start(cmap.points(n), code, s)
                    && v@ == target_text(cmap.points(n)[code], code, s);
                lemma_run_start_unique(cmap.points(n), code, s, choose|s: u32| is_run_start(cmap.points(n), code, s));
            }
        }
        r
    }
}

/// The big-endian bytes of `units`.
fn units_to_be(units: &Vec<u16>) -> (r: Vec<u8>)
    ensures
        r@ == units_be(units@),
{
    let mut out: Vec<u8> = Vec::new();
    let mut i: usize = 0;
    while i < units.len()
        invariant
            i <= units@.len(),
            out@ == units_be(units@.subrange(0, i as int)),
        decreases units@.len() - i,
    {
        let u = units[i];
        out.push((u / 256) as u8);
        out.push((u % 256) as u8);
        i = i + 1;
        assert(units@.subrange(0, i as int).drop_last() =~= units@.subrange(0, i - 1));
    }
    assert(units@.subrange(0, units@.len() as int) =~= units@);
    out
}

/// The text that `bytes` stand for through `cmap`.
fn cmap_bytes_to_string(cmap: &ToUnicodeCMap, bytes: &[u8]) -> (r: String)
    requires
        cmap_fits(*cmap),
    ensures
        r@ == utf16be_text(units_be(cmap_units(*cmap, bytes@))),
{
    let mut units: Vec<u16> = Vec::new();
    let mut n: u8 = 0;
    let mut code: u32 = 0;
    let mut i: usize = 0;
    while i < bytes.len()
        invariant
            i <= bytes@.len(),
            cmap_fits(*cmap),
            (units@, code, n) == cmap_scan(*cmap, bytes@, i as nat),
            n <= 4,
            n == 0 ==> code == 0,
            n == 1 ==> code < 0x100,
            n == 2 ==> code < 0x1_0000,
            n == 3 ==> code < 0x100_0000,
        decreases bytes@.len() - i,
    {
        if n == 4 {
            let v = cmap_code_text(cmap, code, 4, true);
            let mut v = v.unwrap();
            units.append(&mut v);
            code = 0;
            n = 0;
        }
        n = n + 1;
        code = code * 256 + bytes[i] as u32;
        let found = cmap_code_text(cmap, code, n, false);
        match found {
            Some(v) => {
                let mut v = v;
                units.append(&mut v);
                code = 0;
                n = 0;
            },
            None => {},
        }
        i = i + 1;
    }
    if n > 0 {
        let v = cmap_code_text(cmap, code, n, true);
        let mut v = v.unwrap();
        units.append(&mut v);
    }
    let be = units_to_be(&units);
    decode_utf16be(be.as_slice())
}

/// The names of the UTF-16 encodings that are known by name.
pub open spec fn is_utf16_name(name: Seq<u8>) -> bool {
    name == seq![85u8, 110, 105, 71, 66, 45, 85, 67, 83, 50, 45, 72]
        || name == seq![85u8, 110, 105, 71, 66, 45, 85, 84, 70, 49, 54, 45, 72]
}

fn utf16_name(name: &[u8]) -> (r: bool)
    ensures
        r == is_utf16_name(name@),
{
    let ucs2: [u8; 12] = [85, 110, 105, 71, 66, 45, 85, 67, 83, 50, 45, 72];
    let utf16: [u8; 13] = [85, 110, 105, 71, 66, 45, 85, 84, 70, 49, 54, 45, 72];
    assert(ucs2@ =~= seq![85u8, 110, 105, 71, 66, 45, 85, 67, 83, 50, 45, 72]);
    assert(utf16@ =~= seq![85u8, 110, 105, 71, 66, 45, 85, 84, 70, 49, 54, 45, 72]);
    crate::object::bytes_equal(name, ucs2.as_slice()) || crate::object::bytes_equal(name, utf16.as_slice())
}

impl<'a> Encoding<'a> {
    /// The text that `bytes` stand for.
    pub fn bytes_to_string(&self, bytes: &[u8]) -> (r: Result<String, Error>)
        requires
            self matches Encoding::OneByteEncoding(map) ==> utf16_text(mapped_units(map@, bytes@, bytes@.len())) is Some,
            *self matches Encoding::UnicodeMapEncoding(cmap) ==> cmap_fits(cmap),
        ensures
            match *self {
                Encoding::OneByteEncoding(map) => r matches Ok(s)
                    && s@ == utf16_text(mapped_units(map@, bytes@, bytes@.len()))->0,
                Encoding::SimpleEncoding(name) => if is_utf16_name(name@) {
                    r matches Ok(s) && s@ == utf16be_text(bytes@)
                } else {
                    r matches Err(Error::CharacterEncoding)
                },
                Encoding::UnicodeMapEncoding(cmap) => r matches Ok(s)
                    && s@ == utf16be_text(units_be(cmap_units(cmap, bytes@))),
            },
    {
        match self {
            Encoding::OneByteEncoding(map) => Ok(bytes_to_string(map, bytes)),
            Encoding::UnicodeMapEncoding(cmap) => Ok(cmap_bytes_to_string(cmap, bytes)),
            Encoding::SimpleEncoding(name) => {
                if utf16_name(name) {
                    Ok(decode_utf16be(bytes))
                } else {
                    Err(Error::CharacterEncoding)
                }
            },
        }
    }

    /// The bytes that stand for `text`. Text is not encoded back through a
    /// ToUnicode CMap.
    pub fn string_to_bytes(&self, text: &str) -> (r: Vec<u8>)
        requires
            !(self is UnicodeMapEncoding),
        ensures
            match *self {
                Encoding::OneByteEncoding(map) => r@ == encoded_units(map@, utf16_units(text@), utf16_units(text@).len()),
                Encoding::SimpleEncoding(name) => if is_utf16_name(name@) {
                    r@ == seq![0xFEu8, 0xFF] + units_be(utf16_units(text@))
                } else {
                    r@ == utf8_bytes(text@)
                },
                Encoding::UnicodeMapEncoding(_) => false,
            },
    {
        match self {
            Encoding::OneByteEncoding(map) => string_to_bytes(map, text),
            Encoding::UnicodeMapEncoding(_) => Vec::new(),
            Encoding::SimpleEncoding(name) => {
                if utf16_name(name) {
                    encode_utf16_be(text)
                } else {
                    let b = text.as_bytes();
                    let mut out: Vec<u8> = Vec::new();
                    let mut i: usize = 0;
                    while i < b.len()
                        invariant
                            i <= b@.len(),
                            out@ == b@.subrange(0, i as int),
                        decreases b@.len() - i,
                    {
                        out.push(b[i]);
                        i = i + 1;
                        assert(out@ =~= b@.subrange(0, i as int));
                    }
                    assert(b@.subrange(0, b@.len() as int) =~= b@);
                    out
                }
            },
        }
    }
}

} // verus!

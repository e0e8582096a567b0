//! Text made from bytes.

use vstd::prelude::*;
use vstd::utf8::{valid_utf8, decode_utf8, is_leading_byte_width_1, partial_valid_utf8_extend_ascii_block};

verus! {

/// The text that `bytes` encode in UTF-8, with each invalid sequence
/// replaced by U+FFFD.
///
/// Calls `String::from_utf8_lossy`. The contract states what it gives for
/// valid UTF-8; for other input it leaves the replacements unsaid.
#[verifier::external_body]
pub fn lossy_string(bytes: &[u8]) -> (r: String)
    ensures
        valid_utf8(bytes@) ==> r@ == decode_utf8(bytes@),
{
    String::from_utf8_lossy(bytes).into_owned()
}

/// The text that `bytes` encode in UTF-8, or nothing where they are not
/// valid UTF-8.
///
/// Calls `std::str::from_utf8`, which succeeds exactly on valid UTF-8 and
/// then views the same bytes as text.
#[verifier::external_body]
pub fn utf8_text(bytes: &[u8]) -> (r: Option<String>)
    ensures
        r is Some <==> valid_utf8(bytes@),
        r matches Some(t) ==> t@ == decode_utf8(bytes@),
{
    match std::str::from_utf8(bytes) {
        Ok(t) => Some(t.to_string()),
        Err(_) => None,
    }
}

/// Bytes below 128 are valid UTF-8.
pub proof fn lemma_ascii_valid_utf8(b: Seq<u8>)
    requires
        forall|i: int| 0 <= i < b.len() ==> b[i] < 128,
    ensures
        valid_utf8(b),
{
    assert(valid_utf8(b.subrange(0, 0))) by {
        assert(b.subrange(0, 0).len() == 0);
    }
    assert forall|i: int| 0 <= 0 <= i < b.len() <= b.len() implies #[trigger] is_leading_byte_width_1(b[i]) by {}
    partial_valid_utf8_extend_ascii_block(b, 0, b.len() as int);
    assert(b.subrange(0, b.len() as int) =~= b);
}

/// Makes a text string object: the text itself, in a literal string, where
/// it is all ASCII; otherwise its UTF-16BE encoding after the byte order
/// mark, in a hexadecimal string.
pub fn text_string(text: &str) -> (r: crate::object::Object)
    ensures
        vstd::string::is_ascii(text) ==> (r matches crate::object::Object::String(b, f)
            && b@ == vstd::utf8::encode_utf8(text@) && f == crate::object::StringFormat::Literal),
        !vstd::string::is_ascii(text) ==> (r matches crate::object::Object::String(b, f)
            && b@ == seq![0xFEu8, 0xFF] + crate::encodings::units_be(crate::encodings::utf16_units(text@))
            && f == crate::object::StringFormat::Hexadecimal),
{
    if text.is_ascii() {
        crate::object::Object::String(crate::encodings::encode_utf8_bytes(text), crate::object::StringFormat::Literal)
    } else {
        crate::object::Object::String(crate::encodings::encode_utf16_be(text), crate::object::StringFormat::Hexadecimal)
    }
}

} // verus!

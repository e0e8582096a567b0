//! Reading content streams: operands, each followed by content white-space,
//! then their operator.

use vstd::prelude::*;
use vstd::utf8::{valid_utf8, decode_utf8, encode_utf8, decode_utf8_encode_utf8};
use crate::object::{Object, PdfValue, StringFormat, values_of};
use crate::parser::{
    comment_end, has_word, spec_real, spec_integer, spec_name, spec_literal_string, spec_hex_string,
    spec_direct_objects, after_sign, hex_nibbles, null_word, true_word, false_word, lemma_digits_end,
    lemma_name_chars, lemma_lit_scan_end, lemma_hex_nibbles, lemma_skip_white, comment, tag, real_number,
    integer, name, literal_string, hexadecimal_string, direct_objects, copy_range,
};
use crate::content::{Content, Operation};
use crate::strings::{utf8_text, lemma_ascii_valid_utf8};

verus! {

/// White-space between the parts of a content stream: space, tab, CR and LF.
pub open spec fn is_content_white(c: u8) -> bool {
    c == 32 || c == 9 || c == 13 || c == 10
}

/// Characters of an operator: ASCII letters, `*`, `'` and `"`.
pub open spec fn is_operator_char(c: u8) -> bool {
    (65 <= c <= 90) || (97 <= c <= 122) || c == 42 || c == 39 || c == 34
}

/// The first position from `p` on that holds no content white-space.
pub open spec fn content_space_end(s: Seq<u8>, p: int) -> int
    decreases s.len() - p,
{
    if 0 <= p < s.len() && is_content_white(s[p]) { content_space_end(s, p + 1) } else { p }
}

/// The first position from `p` on that holds no operator character.
pub open spec fn operator_end(s: Seq<u8>, p: int) -> int
    decreases s.len() - p,
{
    if 0 <= p < s.len() && is_operator_char(s[p]) { operator_end(s, p + 1) } else { p }
}

/// The position after the comments that follow one another from `p` on.
pub open spec fn comments_end(s: Seq<u8>, p: int) -> int
    decreases s.len() - p,
{
    match comment_end(s, p) {
        Some(q) => if p < q <= s.len() { comments_end(s, q) } else { p },
        None => p,
    }
}

/// The value of an operand at `p`. The kinds are tried in this order: null,
/// booleans, reals, integers, names, literal strings, hexadecimal strings,
/// then arrays and dictionaries as in a direct object. An operand is never a
/// reference.
pub open spec fn spec_operand_value(s: Seq<u8>, p: int) -> Option<(PdfValue, int)> {
    if !(0 <= p <= s.len()) {
        None
    } else if has_word(s, p, null_word()) {
        Some((PdfValue::Null, p + 4))
    } else if has_word(s, p, true_word()) {
        Some((PdfValue::Boolean(true), p + 4))
    } else if has_word(s, p, false_word()) {
        Some((PdfValue::Boolean(false), p + 5))
    } else if let Some((digits, e)) = spec_real(s, p) {
        Some((PdfValue::Real(digits), e))
    } else if let Some((v, e)) = spec_integer(s, p) {
        Some((PdfValue::Integer(v), e))
    } else if let Some((n, e)) = spec_name(s, p) {
        Some((PdfValue::Name(n), e))
    } else if let Some((t, e)) = spec_literal_string(s, p) {
        Some((PdfValue::Str(t, StringFormat::Literal), e))
    } else if let Some((t, e)) = spec_hex_string(s, p) {
        Some((PdfValue::Str(t, StringFormat::Hexadecimal), e))
    } else {
        spec_direct_objects(s, p)
    }
}

/// An operand at `p` and the content white-space after it.
pub open spec fn spec_operand(s: Seq<u8>, p: int) -> Option<(PdfValue, int)> {
    match spec_operand_value(s, p) {
        Some((v, e)) => Some((v, content_space_end(s, e))),
        None => None,
    }
}

/// The operands that follow one another from `q` on, and where they end.
pub open spec fn spec_operands(s: Seq<u8>, q: int) -> (Seq<PdfValue>, int)
    decreases s.len() - q,
{
    match spec_operand(s, q) {
        Some((v, e)) => if q < e <= s.len() {
            let (rest, e2) = spec_operands(s, e);
            (seq![v] + rest, e2)
        } else {
            (Seq::empty(), q)
        },
        None => (Seq::empty(), q),
    }
}

/// An operation at `p`: comments, operands, an operator of at least one
/// character and content white-space. Gives the operator's bytes, the
/// operands and the position after the operation.
pub open spec fn spec_operation(s: Seq<u8>, p: int) -> Option<(Seq<u8>, Seq<PdfValue>, int)> {
    let q = comments_end(s, p);
    let (operands, e) = spec_operands(s, q);
    let f = operator_end(s, e);
    if e < f {
        Some((s.subrange(e, f), operands, content_space_end(s, f)))
    } else {
        None
    }
}

/// The operations that follow one another from `q` on, each as its
/// operator's bytes and its operands.
pub open spec fn spec_operations(s: Seq<u8>, q: int) -> Seq<(Seq<u8>, Seq<PdfValue>)>
    decreases s.len() - q,
{
    match spec_operation(s, q) {
        Some((op, operands, e)) => if q < e <= s.len() {
            seq![(op, operands)] + spec_operations(s, e)
        } else {
            Seq::empty()
        },
        None => Seq::empty(),
    }
}

/// The operations of a content stream: after leading content white-space,
/// as many operations as can be read. What follows them is ignored.
pub open spec fn spec_content(s: Seq<u8>) -> Seq<(Seq<u8>, Seq<PdfValue>)> {
    spec_operations(s, content_space_end(s, 0))
}

/// Each operation as the UTF-8 bytes of its operator and its operands' values.
pub open spec fn operations_view(ops: Seq<Operation>) -> Seq<(Seq<u8>, Seq<PdfValue>)> {
    Seq::new(ops.len(), |i: int| (encode_utf8(ops[i].operator@), values_of(ops[i].operands@)))
}

pub proof fn lemma_content_space_end(s: Seq<u8>, p: int)
    requires
        0 <= p <= s.len(),
    ensures
        p <= content_space_end(s, p) <= s.len(),
    decreases s.len() - p,
{
    if p < s.len() && is_content_white(s[p]) {
        lemma_content_space_end(s, p + 1);
    }
}

pub proof fn lemma_operator_end(s: Seq<u8>, p: int)
    requires
        0 <= p <= s.len(),
    ensures
        p <= operator_end(s, p) <= s.len(),
        forall|i: int| p <= i < operator_end(s, p) ==> is_operator_char(s[i]),
    decreases s.len() - p,
{
    if p < s.len() && is_operator_char(s[p]) {
        lemma_operator_end(s, p + 1);
    }
}

pub proof fn lemma_comments_end(s: Seq<u8>, p: int)
    requires
        0 <= p <= s.len(),
    ensures
        p <= comments_end(s, p) <= s.len(),
    decreases s.len() - p,
{
    match comment_end(s, p) {
        Some(q) => if p < q <= s.len() { lemma_comments_end(s, q); },
        None => {},
    }
}

/// Skips content white-space at `p`.
pub fn content_space(s: &[u8], p: usize) -> (r: usize)
    requires
        p <= s@.len(),
    ensures
        r == content_space_end(s@, p as int),
        p <= r <= s@.len(),
{
    proof { lemma_content_space_end(s@, p as int); }
    let mut q = p;
    while q < s.len() && (s[q] == 32 || s[q] == 9 || s[q] == 13 || s[q] == 10)
        invariant
            p <= q <= s@.len(),
            content_space_end(s@, q as int) == content_space_end(s@, p as int),
        decreases s@.len() - q,
    {
        q = q + 1;
    }
    q
}

/// The end of the operator characters from `p` on.
fn operator_chars_end(s: &[u8], p: usize) -> (r: usize)
    requires
        p <= s@.len(),
    ensures
        r == operator_end(s@, p as int),
{
    let mut q = p;
    while q < s.len() && ((65 <= s[q] && s[q] <= 90) || (97 <= s[q] && s[q] <= 122) || s[q] == 42 || s[q] == 39
        || s[q] == 34)
        invariant
            p <= q <= s@.len(),
            operator_end(s@, q as int) == operator_end(s@, p as int),
        decreases s@.len() - q,
    {
        q = q + 1;
    }
    q
}

/// Skips the comments that follow one another at `p`.
fn comments(s: &[u8], p: usize) -> (r: usize)
    requires
        p <= s@.len(),
    ensures
        r == comments_end(s@, p as int),
{
    let n = s.len();
    assert(n == s@.len());
    let mut q = p;
    loop
        invariant
            p <= q <= s@.len(),
            n == s@.len(),
            comments_end(s@, q as int) == comments_end(s@, p as int),
        decreases s@.len() - q,
    {
        match comment(s, q) {
            Some(e) => {
                q = e;
            },
            None => {
                return q;
            },
        }
    }
}

/// Reads the value of an operand at `p`.
fn operand_value(s: &[u8], p: usize) -> (r: Option<(Object, usize)>)
    requires
        p <= s@.len(),
    ensures
        match spec_operand_value(s@, p as int) {
            Some((v, e)) => r matches Some((o, e2)) && o@ == v && e2 == e && p < e <= s@.len(),
            None => r is None,
        },
{
    let n = s.len();
    assert(n == s@.len());
    assert(null_word().len() == 4 && true_word().len() == 4 && false_word().len() == 5);
    let null_w: Vec<u8> = vec![110u8, 117, 108, 108];
    let true_w: Vec<u8> = vec![116u8, 114, 117, 101];
    let false_w: Vec<u8> = vec![102u8, 97, 108, 115, 101];
    assert(null_w@ =~= null_word() && true_w@ =~= true_word() && false_w@ =~= false_word());
    if tag(s, p, null_w.as_slice()) {
        return Some((Object::Null, p + 4));
    }
    if tag(s, p, true_w.as_slice()) {
        return Some((Object::Boolean(true), p + 4));
    }
    if tag(s, p, false_w.as_slice()) {
        return Some((Object::Boolean(false), p + 5));
    }
    if let Some((digits, e)) = real_number(s, p) {
        return Some((Object::Real(digits), e));
    }
    if let Some((v, e)) = integer(s, p) {
        proof { lemma_digits_end(s@, after_sign(s@, p as int)); }
        return Some((Object::Integer(v), e));
    }
    if let Some((nm, e)) = name(s, p) {
        proof { lemma_name_chars(s@, p + 1); }
        return Some((Object::Name(nm), e));
    }
    if let Some((t, e)) = literal_string(s, p) {
        proof { lemma_lit_scan_end(s@, p + 1, 0); }
        return Some((Object::string_literal(t), e));
    }
    if let Some((t, e)) = hexadecimal_string(s, p) {
        proof {
            lemma_hex_nibbles(s@, p + 1);
            lemma_skip_white(s@, hex_nibbles(s@, p + 1).1);
        }
        return Some((Object::String(t, StringFormat::Hexadecimal), e));
    }
    direct_objects(s, p)
}

/// Reads an operand at `p` and the content white-space after it.
fn operand(s: &[u8], p: usize) -> (r: Option<(Object, usize)>)
    requires
        p <= s@.len(),
    ensures
        match spec_operand(s@, p as int) {
            Some((v, e)) => r matches Some((o, e2)) && o@ == v && e2 == e && p < e <= s@.len(),
            None => r is None,
        },
{
    match operand_value(s, p) {
        Some((o, e)) => {
            let e2 = content_space(s, e);
            Some((o, e2))
        },
        None => None,
    }
}

/// Reads the operands that follow one another from `q` on.
fn operands(s: &[u8], q: usize) -> (r: (Vec<Object>, usize))
    requires
        q <= s@.len(),
    ensures
        values_of(r.0@) == spec_operands(s@, q as int).0,
        r.1 == spec_operands(s@, q as int).1,
        q <= r.1 <= s@.len(),
{
    let mut items: Vec<Object> = Vec::new();
    let mut pos = q;
    loop
        invariant
            q <= pos <= s@.len(),
            spec_operands(s@, q as int) == (values_of(items@) + spec_operands(s@, pos as int).0, spec_operands(s@, pos as int).1),
        decreases s@.len() - pos,
    {
        match operand(s, pos) {
            Some((o, e)) => {
                let ghost v = o@;
                let ghost old_items = items@;
                items.push(o);
                proof {
                    assert(values_of(items@) =~= values_of(old_items).push(v));
                    assert(values_of(old_items) + (seq![v] + spec_operands(s@, e as int).0)
                        =~= values_of(items@) + spec_operands(s@, e as int).0);
                }
                pos = e;
            },
            None => {
                assert(values_of(items@) + Seq::<PdfValue>::empty() =~= values_of(items@));
                return (items, pos);
            },
        }
    }
}

/// Reads an operation at `p`.
fn operation(s: &[u8], p: usize) -> (r: Option<(Operation, usize)>)
    requires
        p <= s@.len(),
    ensures
        match spec_operation(s@, p as int) {
            Some((op, args, e)) => r matches Some((o, e2)) && encode_utf8(o.operator@) == op
                && values_of(o.operands@) == args && e2 == e && p < e <= s@.len(),
            None => r is None,
        },
{
    let q = comments(s, p);
    proof { lemma_comments_end(s@, p as int); }
    let (args, e) = operands(s, q);
    let f = operator_chars_end(s, e);
    proof { lemma_operator_end(s@, e as int); }
    if e < f {
        let bytes = copy_range(s, e, f);
        proof {
            assert forall|i: int| 0 <= i < bytes@.len() implies bytes@[i] < 128 by {
                assert(is_operator_char(s@[e + i]));
            }
            lemma_ascii_valid_utf8(bytes@);
            decode_utf8_encode_utf8(bytes@);
        }
        match utf8_text(bytes.as_slice()) {
            Some(operator) => {
                let end = content_space(s, f);
                Some((Operation { operator, operands: args }, end))
            },
            None => None,
        }
    } else {
        None
    }
}

/// Reads the operations of a content stream: after leading white-space, as
/// many operations as there are. Always succeeds; what cannot be read as an
/// operation ends the content.
pub fn content(input: &[u8]) -> (r: Option<Content>)
    ensures
        r matches Some(c) && operations_view(c.operations@) == spec_content(input@),
{
    let mut ops: Vec<Operation> = Vec::new();
    let start = content_space(input, 0);
    let mut pos = start;
    loop
        invariant
            start <= pos <= input@.len(),
            spec_content(input@) == operations_view(ops@) + spec_operations(input@, pos as int),
        decreases input@.len() - pos,
    {
        match operation(input, pos) {
            Some((o, e)) => {
                let ghost item = (encode_utf8(o.operator@), values_of(o.operands@));
                let ghost old_ops = ops@;
                ops.push(o);
                proof {
                    assert(operations_view(ops@) =~= operations_view(old_ops).push(item));
                    assert(operations_view(old_ops) + (seq![item] + spec_operations(input@, e as int))
                        =~= operations_view(ops@) + spec_operations(input@, e as int));
                }
                pos = e;
            },
            None => {
                assert(operations_view(ops@) + Seq::<(Seq<u8>, Seq<PdfValue>)>::empty() =~= operations_view(ops@));
                return Some(Content { operations: ops });
            },
        }
    }
}

} // verus!

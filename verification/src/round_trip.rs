//! Reading back what the writer writes: the parser gives back every value
//! that the writer can write in a form that reads back.

use vstd::prelude::*;
use crate::format::{decimal, digit_byte, signed_decimal};
use crate::object::PdfValue;
use crate::parser::{
    is_white, is_delim, is_reg, is_digit, is_hex, hex_value, has_word, digits_end, digits_value, space_end,
    comment_end, after_sign, spec_unsigned, spec_integer, spec_real_end, spec_real, spec_reference, spec_name,
    name_chars, null_word, true_word, false_word, spec_direct_objects,
};
use crate::parser::{MAX_BRACKET, spec_escape, lit_scan, spec_literal_string, eol_len, is_oct, is_direct_lit};
use crate::writer::{name_escaped, hex_upper, hex_pair, name_body, name_text, null_text, true_text, false_text,
    paren_scan, escaped_positions, literal_body, hex_body, string_text};
use crate::parser::{skip_white, hex_nibbles, pack_nibbles, spec_hex_string};
use crate::object::{StringFormat, keys_distinct, entries_set, find_key, lemma_find_key};
use crate::parser::{spec_array_items, spec_dict_entries, spec_direct_object};
use crate::writer::{value_text, items_text, entries_text, value_needs_separator};
use crate::content::{Operation, operations_text, operation_text, operands_text};
use crate::content_parser::{
    is_content_white, is_operator_char, content_space_end, operator_end, comments_end, spec_operand_value,
    spec_operand, spec_operands, spec_operation, spec_operations, spec_content, operations_view,
};
use crate::object::values_of;
use vstd::utf8::encode_utf8;

verus! {

/// Whether the text that ends at `e` in `s` is ended there: by the end of
/// `s`, white-space or a delimiter.
pub open spec fn ends_token(s: Seq<u8>, e: int) -> bool {
    e == s.len() || (0 <= e < s.len() && (is_white(s[e]) || is_delim(s[e])))
}

/// Whether no reference can start with a number that ends at `e`: after
/// the white-space there, no second number followed by `R`.
pub open spec fn no_reference_tail(s: Seq<u8>, e: int) -> bool {
    match spec_unsigned(s, space_end(s, e), u16::MAX as nat) {
        Some((_, e2)) => !(0 <= space_end(s, e2) < s.len() && s[space_end(s, e2)] == 82),
        None => true,
    }
}

/// Whether `digits` write a real number that the parser reads whole: an
/// optional sign, then digits, a period and maybe more digits, or a period
/// and at least one digit.
pub open spec fn real_text(digits: Seq<u8>) -> bool {
    spec_real_end(digits, 0) == Some(digits.len() as int)
}

pub proof fn lemma_byte_at(s: Seq<u8>, p: int, t: Seq<u8>, i: int)
    requires
        has_word(s, p, t),
        0 <= i < t.len(),
    ensures
        s[p + i] == t[i],
{
    assert(s.subrange(p, p + t.len())[i] == t[i]);
}

pub proof fn lemma_word_split(s: Seq<u8>, p: int, a: Seq<u8>, b: Seq<u8>)
    requires
        has_word(s, p, a + b),
    ensures
        has_word(s, p, a),
        has_word(s, p + a.len(), b),
{
    assert forall|i: int| 0 <= i < a.len() implies s[p + i] == a[i] by {
        lemma_byte_at(s, p, a + b, i);
    }
    assert forall|i: int| 0 <= i < b.len() implies s[p + a.len() + i] == b[i] by {
        lemma_byte_at(s, p, a + b, a.len() + i);
    }
    assert(s.subrange(p, p + a.len()) =~= a);
    assert(s.subrange(p + a.len(), p + a.len() + b.len()) =~= b);
}

pub proof fn lemma_word_prefix(s: Seq<u8>, p: int, t: Seq<u8>, m: int)
    requires
        has_word(s, p, t),
        0 <= m <= t.len(),
    ensures
        has_word(s, p, t.subrange(0, m)),
{
    assert forall|i: int| 0 <= i < m implies s[p + i] == t.subrange(0, m)[i] by {
        lemma_byte_at(s, p, t, i);
    }
    assert(s.subrange(p, p + m) =~= t.subrange(0, m));
}

/// The digits of `decimal(v)` are digits, at least one of them.
pub proof fn lemma_decimal_digits(v: nat)
    ensures
        decimal(v).len() >= 1,
        forall|i: int| 0 <= i < decimal(v).len() ==> is_digit(#[trigger] decimal(v)[i]),
    decreases v,
{
    if v >= 10 {
        lemma_decimal_digits(v / 10);
    }
}

/// Where a run of digits ends.
pub proof fn lemma_digits_end_at(s: Seq<u8>, p: int, e: int)
    requires
        0 <= p <= e <= s.len(),
        forall|i: int| p <= i < e ==> is_digit(s[i]),
        e == s.len() || !is_digit(s[e]),
    ensures
        digits_end(s, p) == e,
    decreases e - p,
{
    if p < e {
        lemma_digits_end_at(s, p + 1, e);
    }
}

/// Decimal digits written at `p` read back as their value.
pub proof fn lemma_decimal_value(s: Seq<u8>, p: int, v: nat)
    requires
        has_word(s, p, decimal(v)),
    ensures
        digits_value(s, p, p + decimal(v).len()) == v,
    decreases v,
{
    if v < 10 {
        lemma_byte_at(s, p, decimal(v), 0);
        assert(digits_value(s, p, p) == 0);
    } else {
        let d = decimal(v / 10);
        assert(decimal(v) == d.push(digit_byte(v % 10)));
        assert(d.push(digit_byte(v % 10)) =~= d + seq![digit_byte(v % 10)]);
        lemma_word_split(s, p, d, seq![digit_byte(v % 10)]);
        lemma_decimal_value(s, p, v / 10);
        lemma_byte_at(s, p + d.len(), seq![digit_byte(v % 10)], 0);
        assert(digits_value(s, p, p + d.len() + 1) == digits_value(s, p, p + d.len()) * 10 + (s[p + d.len()] - 48) as nat);
    }
}

/// A number written as decimal digits at `p` and ended there reads back.
pub proof fn lemma_decimal_read(s: Seq<u8>, p: int, v: nat)
    requires
        has_word(s, p, decimal(v)),
        ends_token(s, p + decimal(v).len()),
    ensures
        digits_end(s, p) == p + decimal(v).len(),
        digits_value(s, p, p + decimal(v).len()) == v,
        forall|max: nat| v <= max ==> spec_unsigned(s, p, max) == Some((v, p + decimal(v).len())),
        forall|max: nat| v > max ==> spec_unsigned(s, p, max) is None,
{
    lemma_decimal_digits(v);
    let e = p + decimal(v).len();
    assert forall|i: int| p <= i < e implies is_digit(s[i]) by {
        lemma_byte_at(s, p, decimal(v), i - p);
    }
    lemma_digits_end_at(s, p, e);
    lemma_decimal_value(s, p, v);
}

/// White-space and comments end at once where neither stands.
pub proof fn lemma_space_end_here(s: Seq<u8>, e: int)
    requires
        0 <= e <= s.len(),
        e < s.len() ==> !is_white(s[e]) && s[e] != 37,
    ensures
        space_end(s, e) == e,
{
    assert(comment_end(s, e) is None);
}

/// One space before text that starts with neither white-space nor `%`.
pub proof fn lemma_space_end_one(s: Seq<u8>, e: int)
    requires
        0 <= e < s.len(),
        is_white(s[e]),
        e + 1 <= s.len(),
        e + 1 < s.len() ==> !is_white(s[e + 1]) && s[e + 1] != 37,
    ensures
        space_end(s, e) == e + 1,
{
    lemma_space_end_here(s, e + 1);
}

/// What each kind of object needs as its first byte.
pub proof fn lemma_first_byte(s: Seq<u8>, p: int)
    requires
        0 <= p <= s.len(),
    ensures
        has_word(s, p, null_word()) ==> p < s.len() && s[p] == 110,
        has_word(s, p, true_word()) ==> p < s.len() && s[p] == 116,
        has_word(s, p, false_word()) ==> p < s.len() && s[p] == 102,
        spec_reference(s, p) is Some ==> p < s.len() && is_digit(s[p]),
        spec_real(s, p) is Some ==> p < s.len() && (is_digit(s[p]) || s[p] == 43 || s[p] == 45 || s[p] == 46),
        spec_integer(s, p) is Some ==> p < s.len() && (is_digit(s[p]) || s[p] == 43 || s[p] == 45),
        spec_name(s, p) is Some ==> p < s.len() && s[p] == 47,
{
    if has_word(s, p, null_word()) {
        lemma_byte_at(s, p, null_word(), 0);
    }
    if has_word(s, p, true_word()) {
        lemma_byte_at(s, p, true_word(), 0);
    }
    if has_word(s, p, false_word()) {
        lemma_byte_at(s, p, false_word(), 0);
    }
    let q = after_sign(s, p);
    if spec_real(s, p) is Some {
        if digits_end(s, q) > q {
            assert(q < s.len() && is_digit(s[q]));
        }
    }
}

/// `null` reads back.
pub proof fn lemma_read_null(s: Seq<u8>, p: int)
    requires
        has_word(s, p, null_text()),
    ensures
        spec_direct_objects(s, p) == Some((PdfValue::Null, p + 4)),
{
    assert(null_text() =~= null_word());
}

/// `true` and `false` read back.
pub proof fn lemma_read_bool(s: Seq<u8>, p: int, b: bool)
    requires
        has_word(s, p, if b { true_text() } else { false_text() }),
    ensures
        spec_direct_objects(s, p) == Some((PdfValue::Boolean(b), p + (if b { 4int } else { 5int }))),
{
    assert(true_text() =~= true_word());
    assert(false_text() =~= false_word());
    lemma_first_byte(s, p);
    if b {
        lemma_byte_at(s, p, true_text(), 0);
    } else {
        lemma_byte_at(s, p, false_text(), 0);
    }
}

/// An integer reads back where it ends a token and starts no reference.
pub proof fn lemma_read_integer(s: Seq<u8>, p: int, i: i64)
    requires
        has_word(s, p, signed_decimal(i as int)),
        ends_token(s, p + signed_decimal(i as int).len()),
        no_reference_tail(s, p + signed_decimal(i as int).len()),
    ensures
        spec_direct_objects(s, p) == Some((PdfValue::Integer(i), p + signed_decimal(i as int).len())),
{
    lemma_integer_parts(s, p, i);
}

/// An integer that ends a token is no real number and reads as itself; a
/// negative one starts no reference.
pub proof fn lemma_integer_parts(s: Seq<u8>, p: int, i: i64)
    requires
        has_word(s, p, signed_decimal(i as int)),
        ends_token(s, p + signed_decimal(i as int).len()),
    ensures
        spec_real(s, p) is None,
        spec_integer(s, p) == Some((i, p + signed_decimal(i as int).len())),
        !has_word(s, p, null_word()) && !has_word(s, p, true_word()) && !has_word(s, p, false_word()),
        spec_name(s, p) is None,
        i < 0 ==> spec_reference(s, p) is None,
        i >= 0 ==> digits_end(s, p) == p + signed_decimal(i as int).len()
            && digits_value(s, p, p + signed_decimal(i as int).len()) == i,
{
    let t = signed_decimal(i as int);
    let e = p + t.len();
    lemma_first_byte(s, p);
    if i >= 0 {
        let v = i as nat;
        lemma_decimal_read(s, p, v);
        lemma_decimal_digits(v);
        lemma_byte_at(s, p, t, 0);
        assert(is_digit(s[p]));
        assert(after_sign(s, p) == p);
        assert(spec_real_end(s, p) is None);
        assert(spec_integer(s, p) == Some((i, e)));
    } else {
        let v = (-(i as int)) as nat;
        lemma_word_split(s, p, seq![45u8], decimal(v));
        lemma_byte_at(s, p, seq![45u8], 0);
        lemma_decimal_read(s, p + 1, v);
        assert(digits_end(s, p) == p);
        assert(spec_unsigned(s, p, u32::MAX as nat) is None);
        assert(after_sign(s, p) == p + 1);
        assert(spec_real_end(s, p) is None);
        assert(spec_integer(s, p) == Some((i, e)));
    }
}

/// Where digits end inside text written at `p` that ends a token.
pub proof fn lemma_digits_end_within(s: Seq<u8>, p: int, t: Seq<u8>, q: int)
    requires
        has_word(s, p, t),
        ends_token(s, p + t.len()),
        0 <= q <= t.len(),
    ensures
        digits_end(s, p + q) == p + digits_end(t, q),
        q <= digits_end(t, q) <= t.len(),
    decreases t.len() - q,
{
    if q < t.len() {
        lemma_byte_at(s, p, t, q);
        if is_digit(t[q]) {
            lemma_digits_end_within(s, p, t, q + 1);
        }
    }
}

/// A real number reads back where it ends a token.
pub proof fn lemma_read_real(s: Seq<u8>, p: int, d: Seq<u8>)
    requires
        has_word(s, p, d),
        real_text(d),
        ends_token(s, p + d.len()),
    ensures
        spec_direct_objects(s, p) == Some((PdfValue::Real(d), p + d.len())),
        spec_real(s, p) == Some((d, p + d.len())),
{
    let e = p + d.len();
    lemma_first_byte(s, p);
    assert(d.len() > 0);
    lemma_byte_at(s, p, d, 0);
    let q0 = after_sign(d, 0);
    let q = after_sign(s, p);
    assert(q == p + q0);
    lemma_digits_end_within(s, p, d, q0);
    let dd = digits_end(d, q0);
    if dd > q0 {
        assert(dd < d.len() && d[dd] == 46);
        lemma_byte_at(s, p, d, dd);
        lemma_digits_end_within(s, p, d, dd + 1);
    } else {
        assert(d[q0] == 46);
        lemma_byte_at(s, p, d, q0);
        lemma_digits_end_within(s, p, d, q0 + 1);
    }
    assert(spec_real_end(s, p) == Some(e));
    assert(s.subrange(p, e) == d);
    if is_digit(s[p]) {
        assert(q0 == 0);
        lemma_digits_end_within(s, p, d, 0);
        let e1 = digits_end(s, p);
        assert(s[e1] == 46);
        lemma_space_end_here(s, e1);
        assert(digits_end(s, e1) == e1);
        assert(spec_unsigned(s, e1, u16::MAX as nat) is None);
        assert(spec_reference(s, p) is None);
    }
}

/// A reference reads back.
pub proof fn lemma_read_reference(s: Seq<u8>, p: int, id: u32, generation: u16)
    requires
        has_word(s, p, decimal(id as nat) + seq![32u8] + decimal(generation as nat) + seq![32u8, 82]),
    ensures
        spec_direct_objects(s, p) == Some((PdfValue::Reference(id, generation),
            p + (decimal(id as nat) + seq![32u8] + decimal(generation as nat) + seq![32u8, 82]).len())),
{
    let a = decimal(id as nat);
    let g = decimal(generation as nat);
    let t = a + seq![32u8] + g + seq![32u8, 82];
    assert(t =~= a + (seq![32u8] + (g + seq![32u8, 82])));
    lemma_word_split(s, p, a, seq![32u8] + (g + seq![32u8, 82]));
    let e1 = p + a.len();
    lemma_word_split(s, e1, seq![32u8], g + seq![32u8, 82]);
    lemma_word_split(s, e1 + 1, g, seq![32u8, 82]);
    let e2 = e1 + 1 + g.len();
    lemma_byte_at(s, e1, seq![32u8], 0);
    lemma_byte_at(s, e2, seq![32u8, 82], 0);
    lemma_byte_at(s, e2, seq![32u8, 82], 1);
    lemma_decimal_read(s, p, id as nat);
    lemma_decimal_digits(generation as nat);
    lemma_byte_at(s, e1 + 1, g, 0);
    lemma_space_end_one(s, e1);
    lemma_decimal_read(s, e1 + 1, generation as nat);
    lemma_space_end_one(s, e2);
    lemma_first_byte(s, p);
    lemma_decimal_digits(id as nat);
    lemma_byte_at(s, p, a, 0);
    assert(spec_reference(s, p) == Some((id, generation, e2 + 2)));
}

/// Whether a name can be written so that it reads back: it holds no NUL,
/// which the parser takes for white-space.
pub open spec fn name_readable(n: Seq<u8>) -> bool {
    forall|i: int| 0 <= i < n.len() ==> n[i] != 0
}

/// The bytes that stand for byte `b` of a name.
pub open spec fn name_piece(b: u8) -> Seq<u8> {
    if name_escaped(b) { seq![35u8] + hex_pair(b) } else { seq![b] }
}

pub proof fn lemma_name_body_prefix(n: Seq<u8>, k: nat, m: nat)
    requires
        k <= m <= n.len(),
    ensures
        name_body(n, k).len() <= name_body(n, m).len(),
        name_body(n, m).subrange(0, name_body(n, k).len() as int) == name_body(n, k),
    decreases m,
{
    if k < m {
        lemma_name_body_prefix(n, k, (m - 1) as nat);
        let prev = name_body(n, (m - 1) as nat);
        assert(name_body(n, m) == prev + name_piece(n[m - 1]));
        assert(name_body(n, m).subrange(0, name_body(n, k).len() as int) =~= prev.subrange(0, name_body(n, k).len() as int));
    } else {
        assert(name_body(n, m).subrange(0, name_body(n, k).len() as int) =~= name_body(n, k));
    }
}

/// Each uppercase hexadecimal digit reads back as its value.
pub proof fn lemma_hex_upper(d: int)
    requires
        0 <= d < 16,
    ensures
        is_hex(hex_upper(d)),
        hex_value(hex_upper(d)) == d,
        !is_white(hex_upper(d)),
        hex_upper(d) != 37,
        hex_upper(d) != 62,
{
}

pub proof fn lemma_hex_pair(b: u8)
    ensures
        hex_pair(b).len() == 2,
        is_hex(hex_pair(b)[0]),
        is_hex(hex_pair(b)[1]),
        (hex_value(hex_pair(b)[0]) * 16 + hex_value(hex_pair(b)[1])) as u8 == b,
        !is_white(hex_pair(b)[0]) && !is_white(hex_pair(b)[1]),
        hex_pair(b)[0] != 37 && hex_pair(b)[1] != 37 && hex_pair(b)[0] != 62 && hex_pair(b)[1] != 62,
{
    lemma_hex_upper((b / 16) as int);
    lemma_hex_upper((b % 16) as int);
}

/// The characters of a name read back from byte `k` on.
pub proof fn lemma_name_chars_read(s: Seq<u8>, b: int, n: Seq<u8>, k: nat)
    requires
        has_word(s, b, name_body(n, n.len())),
        ends_token(s, b + name_body(n, n.len()).len()),
        name_readable(n),
        k <= n.len(),
    ensures
        name_chars(s, b + name_body(n, k).len()) == (n.subrange(k as int, n.len() as int), b + name_body(n, n.len()).len()),
    decreases n.len() - k,
{
    let total = name_body(n, n.len());
    let q = b + name_body(n, k).len();
    if k == n.len() {
        assert(n.subrange(k as int, n.len() as int) =~= Seq::<u8>::empty());
    } else {
        let c = n[k as int];
        lemma_name_body_prefix(n, (k + 1) as nat, n.len());
        lemma_name_body_prefix(n, k, (k + 1) as nat);
        assert(name_body(n, (k + 1) as nat) == name_body(n, k) + name_piece(c));
        lemma_word_prefix(s, b, total, name_body(n, (k + 1) as nat).len() as int);
        lemma_word_split(s, b, name_body(n, k), name_piece(c));
        lemma_name_chars_read(s, b, n, (k + 1) as nat);
        if name_escaped(c) {
            lemma_hex_pair(c);
            lemma_byte_at(s, q, name_piece(c), 0);
            lemma_byte_at(s, q, name_piece(c), 1);
            lemma_byte_at(s, q, name_piece(c), 2);
            assert(name_chars(s, q).0 =~= seq![c] + n.subrange(k + 1int, n.len() as int));
            assert(seq![c] + n.subrange(k + 1int, n.len() as int) =~= n.subrange(k as int, n.len() as int));
        } else {
            lemma_byte_at(s, q, name_piece(c), 0);
            assert(c != 0);
            assert(is_reg(c));
            assert(seq![c] + n.subrange(k + 1int, n.len() as int) =~= n.subrange(k as int, n.len() as int));
        }
    }
}

/// A name reads back where it ends a token.
pub proof fn lemma_read_name(s: Seq<u8>, p: int, n: Seq<u8>)
    requires
        has_word(s, p, name_text(n)),
        ends_token(s, p + name_text(n).len()),
        name_readable(n),
    ensures
        spec_direct_objects(s, p) == Some((PdfValue::Name(n), p + name_text(n).len())),
{
    lemma_word_split(s, p, seq![47u8], name_body(n, n.len()));
    lemma_byte_at(s, p, seq![47u8], 0);
    lemma_name_chars_read(s, p + 1, n, 0);
    assert(n.subrange(0, n.len() as int) =~= n);
    lemma_first_byte(s, p);
    assert(digits_end(s, p) == p);
    assert(after_sign(s, p) == p);
    assert(spec_real_end(s, p) is None);
}

/// How many of the positions `f` are below `k`.
pub open spec fn count_below(f: Seq<int>, k: int) -> nat
    decreases f.len(),
{
    if f.len() == 0 {
        0
    } else {
        count_below(f.drop_last(), k) + if f.last() < k { 1nat } else { 0nat }
    }
}

/// How deep in parentheses the parser stands before byte `k` of a literal
/// string as written: the opening parentheses before `k` that are still
/// open there and are closed later.
pub open spec fn literal_depth(t: Seq<u8>, k: int) -> int {
    paren_scan(t, k as nat).1.len() - count_below(paren_scan(t, t.len()).1, k)
}

/// Whether a literal string can be written so that it reads back: its
/// parentheses never nest deeper than the parser follows.
pub open spec fn literal_readable(t: Seq<u8>) -> bool {
    forall|k: int| 0 <= k <= t.len() ==> #[trigger] literal_depth(t, k) <= MAX_BRACKET
}

/// The bytes that stand for byte `i` of a literal string.
pub open spec fn literal_piece(t: Seq<u8>, esc: Set<int>, i: int) -> Seq<u8> {
    if esc.contains(i) { seq![92u8, if t[i] == 13 { 114u8 } else { t[i] }] } else { seq![t[i]] }
}

pub proof fn lemma_scan_basic(t: Seq<u8>, k: nat)
    requires
        k <= t.len(),
    ensures
        forall|i: int| 0 <= i < paren_scan(t, k).1.len() ==> 0 <= #[trigger] paren_scan(t, k).1[i] < k
            && t[paren_scan(t, k).1[i]] == 40,
        forall|i: int, i2: int| 0 <= i < i2 < paren_scan(t, k).1.len() ==> paren_scan(t, k).1[i] < paren_scan(t, k).1[i2],
        forall|x: int| paren_scan(t, k).0.contains(x) ==> 0 <= x < k,
    decreases k,
{
    if k > 0 {
        lemma_scan_basic(t, (k - 1) as nat);
        let prev = paren_scan(t, (k - 1) as nat).1;
        let cur = paren_scan(t, k).1;
        let b = t[k - 1];
        if b == 40 {
            assert(cur == prev.push(k - 1));
            assert forall|i: int| 0 <= i < cur.len() implies 0 <= #[trigger] cur[i] < k && t[cur[i]] == 40 by {
                if i < prev.len() {
                    assert(cur[i] == prev[i]);
                }
            }
        } else if b == 41 && prev.len() > 0 {
            assert(cur == prev.drop_last());
            assert forall|i: int| 0 <= i < cur.len() implies 0 <= #[trigger] cur[i] < k && t[cur[i]] == 40 by {
                assert(cur[i] == prev[i]);
            }
        } else {
            assert(cur == prev);
        }
    }
}

/// Positions still open at `m` are those open at `k` up to some `j`, and
/// then positions from `k` on.
pub proof fn lemma_scan_stack(t: Seq<u8>, k: nat, m: nat) -> (j: int)
    requires
        k <= m <= t.len(),
    ensures
        0 <= j <= paren_scan(t, k).1.len(),
        j <= paren_scan(t, m).1.len(),
        paren_scan(t, m).1.subrange(0, j) == paren_scan(t, k).1.subrange(0, j),
        forall|i: int| j <= i < paren_scan(t, m).1.len() ==> #[trigger] paren_scan(t, m).1[i] >= k,
    decreases m,
{
    if m == k {
        paren_scan(t, k).1.len() as int
    } else {
        let j0 = lemma_scan_stack(t, k, (m - 1) as nat);
        let prev = paren_scan(t, (m - 1) as nat).1;
        let cur = paren_scan(t, m).1;
        let b = t[m - 1];
        if b == 40 {
            assert(cur == prev.push(m - 1));
            assert(cur.subrange(0, j0) =~= prev.subrange(0, j0));
            j0
        } else if b == 41 && prev.len() > 0 {
            assert(cur == prev.drop_last());
            let j1 = if j0 <= cur.len() { j0 } else { cur.len() as int };
            assert(cur.subrange(0, j1) =~= prev.subrange(0, j1));
            assert(paren_scan(t, k).1.subrange(0, j1) =~= paren_scan(t, k).1.subrange(0, j0).subrange(0, j1));
            j1
        } else {
            j0
        }
    }
}

/// An escaped position found by the scan stays found.
pub proof fn lemma_scan_escaped(t: Seq<u8>, k: nat, m: nat)
    requires
        k < m <= t.len(),
    ensures
        paren_scan(t, m).0.contains(k as int) == (t[k as int] == 92 || t[k as int] == 13
            || (t[k as int] == 41 && paren_scan(t, k).1.len() == 0)),
    decreases m,
{
    let prev = paren_scan(t, (m - 1) as nat);
    let cur = paren_scan(t, m);
    let c = t[m - 1];
    assert(cur.0 == prev.0 || cur.0 == prev.0.insert(m - 1));
    assert((c == 92 || c == 13 || (c == 41 && prev.1.len() == 0)) ==> cur.0 == prev.0.insert(m - 1));
    assert(!(c == 92 || c == 13 || (c == 41 && prev.1.len() == 0)) ==> cur.0 == prev.0);
    if m > k + 1 {
        lemma_scan_escaped(t, k, (m - 1) as nat);
    } else {
        lemma_scan_basic(t, k);
    }
}

pub proof fn lemma_count_below_split(f: Seq<int>, k: int, j: int)
    requires
        0 <= j <= f.len(),
        forall|i: int| 0 <= i < j ==> f[i] < k,
        forall|i: int| j <= i < f.len() ==> f[i] >= k,
    ensures
        count_below(f, k) == j,
    decreases f.len(),
{
    if f.len() > 0 {
        if j == f.len() {
            lemma_count_below_split(f.drop_last(), k, j - 1);
        } else {
            lemma_count_below_split(f.drop_last(), k, j);
        }
    }
}

/// The depth before byte `k`, with the stack there split into the positions
/// that stay open to the end and the others above them.
pub proof fn lemma_literal_depth(t: Seq<u8>, k: nat) -> (j: int)
    requires
        k <= t.len(),
    ensures
        0 <= j <= paren_scan(t, k).1.len(),
        j <= paren_scan(t, t.len()).1.len(),
        literal_depth(t, k as int) == paren_scan(t, k).1.len() - j,
        paren_scan(t, t.len()).1.subrange(0, j) == paren_scan(t, k).1.subrange(0, j),
        forall|i: int| j <= i < paren_scan(t, t.len()).1.len() ==> #[trigger] paren_scan(t, t.len()).1[i] >= k,
{
    let j = lemma_scan_stack(t, k, t.len());
    let f = paren_scan(t, t.len()).1;
    let o = paren_scan(t, k).1;
    lemma_scan_basic(t, k);
    assert forall|i: int| 0 <= i < j implies f[i] < k by {
        assert(f.subrange(0, j)[i] == o.subrange(0, j)[i]);
    }
    lemma_count_below_split(f, k as int, j);
    j
}

pub proof fn lemma_literal_body_prefix(t: Seq<u8>, esc: Set<int>, k: nat, m: nat)
    requires
        k <= m <= t.len(),
    ensures
        literal_body(t, esc, k).len() <= literal_body(t, esc, m).len(),
        literal_body(t, esc, m).subrange(0, literal_body(t, esc, k).len() as int) == literal_body(t, esc, k),
    decreases m,
{
    if k < m {
        lemma_literal_body_prefix(t, esc, k, (m - 1) as nat);
        let prev = literal_body(t, esc, (m - 1) as nat);
        assert(literal_body(t, esc, m) == prev + literal_piece(t, esc, m - 1));
        assert(literal_body(t, esc, m).subrange(0, literal_body(t, esc, k).len() as int)
            =~= prev.subrange(0, literal_body(t, esc, k).len() as int));
    } else {
        assert(literal_body(t, esc, m).subrange(0, literal_body(t, esc, k).len() as int) =~= literal_body(t, esc, k));
    }
}

/// The rest of a literal string reads back from byte `k` on, at the depth
/// the parser stands there.
pub proof fn lemma_literal_read(s: Seq<u8>, b: int, t: Seq<u8>, k: nat)
    requires
        has_word(s, b, literal_body(t, escaped_positions(t), t.len()) + seq![41u8]),
        literal_readable(t),
        k <= t.len(),
    ensures
        literal_depth(t, k as int) >= 0,
        lit_scan(s, b + literal_body(t, escaped_positions(t), k).len(), literal_depth(t, k as int) as nat)
            == Some((t.subrange(k as int, t.len() as int), b + literal_body(t, escaped_positions(t), t.len()).len() + 1)),
    decreases t.len() - k,
{
    let esc = escaped_positions(t);
    let body = literal_body(t, esc, t.len());
    let end = b + body.len();
    let q = b + literal_body(t, esc, k).len();
    let o = paren_scan(t, k).1;
    let f = paren_scan(t, t.len()).1;
    let j = lemma_literal_depth(t, k);
    lemma_scan_basic(t, k);
    lemma_scan_basic(t, t.len());
    lemma_word_split(s, b, body, seq![41u8]);
    if k == t.len() {
        lemma_byte_at(s, end, seq![41u8], 0);
        assert(j == o.len());
        assert(t.subrange(k as int, t.len() as int) =~= Seq::<u8>::empty());
    } else {
        let c = t[k as int];
        let k1 = (k + 1) as nat;
        let piece = literal_piece(t, esc, k as int);
        lemma_literal_body_prefix(t, esc, k1, t.len());
        assert(literal_body(t, esc, k1) == literal_body(t, esc, k) + piece);
        lemma_word_prefix(s, b, body, literal_body(t, esc, k1).len() as int);
        lemma_word_split(s, b, literal_body(t, esc, k), piece);
        lemma_literal_read(s, b, t, k1);
        let j1 = lemma_literal_depth(t, k1);
        lemma_scan_basic(t, k1);
        let o1 = paren_scan(t, k1).1;
        lemma_scan_escaped(t, k, t.len());
        let rest = t.subrange(k + 1int, t.len() as int);
        assert(seq![c] + rest =~= t.subrange(k as int, t.len() as int));
        let in_f = f.contains(k as int);
        assert(esc.contains(k as int) == (paren_scan(t, t.len()).0.contains(k as int) || in_f)) by {
            if in_f {
                assert(f.to_set().contains(k as int));
            }
            if f.to_set().contains(k as int) {
                assert(f.contains(k as int));
            }
        }
        lemma_byte_at(s, q, piece, 0);
        if c == 40 {
            assert(o1 == o.push(k as int));
            assert(o1[o1.len() - 1] == k as int);
            if in_f {
                let i = choose|i: int| 0 <= i < f.len() && f[i] == k;
                assert(i < j1) by {
                    if i >= j1 {
                        assert(f[i] >= k1);
                    }
                }
                assert(o1.subrange(0, j1)[i] == f.subrange(0, j1)[i]);
                assert(i == o1.len() - 1) by {
                    if i < o1.len() - 1 {
                        assert(o1[i] < o1[o1.len() - 1]);
                    }
                }
                assert(j1 == o1.len());
                assert(j == o.len()) by {
                    assert forall|i2: int| 0 <= i2 < o.len() implies f[i2] == o[i2] by {
                        assert(o1.subrange(0, j1)[i2] == f.subrange(0, j1)[i2]);
                    }
                    if j < o.len() {
                        assert(f[j] == o[j]);
                        assert(o[j] < k);
                    }
                }
                lemma_byte_at(s, q, piece, 1);
                assert(spec_escape(s, q) == Some((seq![40u8], q + 2)));
            } else {
                assert(j1 == j) by {
                    if j1 == o1.len() {
                        let idx = o1.len() - 1;
                        assert(o1.subrange(0, j1)[idx] == f.subrange(0, j1)[idx]);
                        assert(f[idx] == k);
                        assert(f.contains(k as int));
                    }
                    assert(j1 < o1.len());
                    assert forall|i2: int| 0 <= i2 < j1 implies f[i2] < k by {
                        assert(o1.subrange(0, j1)[i2] == f.subrange(0, j1)[i2]);
                        assert(o1[i2] == o[i2]);
                        assert(o[i2] < k);
                    }
                    lemma_count_below_split(f, k as int, j1);
                    lemma_count_below_split(f, k as int, j);
                }
                assert(literal_depth(t, k1 as int) <= MAX_BRACKET);
            }
        } else if c == 41 && o.len() > 0 {
            assert(o1 == o.drop_last());
            assert(!in_f) by {
                if in_f {
                    let i = choose|i: int| 0 <= i < f.len() && f[i] == k;
                    assert(t[f[i]] == 40);
                }
            }
            assert(!esc.contains(k as int));
            assert(j < o.len()) by {
                if j == o.len() {
                    let x = o[o.len() - 1];
                    assert(f[o.len() - 1] == x) by {
                        assert(o.subrange(0, j)[o.len() - 1] == f.subrange(0, j)[o.len() - 1]);
                    }
                    if o.len() - 1 < j1 {
                        assert(o1.subrange(0, j1)[o.len() - 1] == f.subrange(0, j1)[o.len() - 1]);
                    } else {
                        assert(f[o.len() - 1] >= k1);
                    }
                }
            }
            assert(j1 == j) by {
                assert forall|i2: int| 0 <= i2 < j1 implies f[i2] < k by {
                    assert(o1.subrange(0, j1)[i2] == f.subrange(0, j1)[i2]);
                }
                lemma_count_below_split(f, k as int, j1);
                lemma_count_below_split(f, k as int, j);
            }
        } else {
            assert(o1 == o);
            assert(!in_f) by {
                if in_f {
                    let i = choose|i: int| 0 <= i < f.len() && f[i] == k;
                    assert(t[f[i]] == 40);
                }
            }
            assert(j1 == j) by {
                assert forall|i2: int| 0 <= i2 < j1 implies f[i2] < k by {
                    assert(o1.subrange(0, j1)[i2] == f.subrange(0, j1)[i2]);
                    assert(o[i2] < k);
                }
                assert forall|i2: int| j1 <= i2 < f.len() implies f[i2] >= k by {
                }
                lemma_count_below_split(f, k as int, j1);
                lemma_count_below_split(f, k as int, j);
            }
            if esc.contains(k as int) {
                lemma_byte_at(s, q, piece, 1);
                if c == 13 {
                    assert(spec_escape(s, q) == Some((seq![13u8], q + 2)));
                } else {
                    assert(spec_escape(s, q) == Some((seq![c], q + 2)));
                }
            } else {
                if c == 10 {
                    assert(s.subrange(q, q + 1) =~= seq![c]);
                }
            }
        }
    }
}

/// A literal string reads back.
pub proof fn lemma_read_literal(s: Seq<u8>, p: int, t: Seq<u8>)
    requires
        has_word(s, p, string_text(t, StringFormat::Literal)),
        literal_readable(t),
    ensures
        spec_direct_objects(s, p) == Some((PdfValue::Str(t, StringFormat::Literal),
            p + string_text(t, StringFormat::Literal).len())),
        spec_literal_string(s, p) == Some((t, p + string_text(t, StringFormat::Literal).len())),
{
    let esc = escaped_positions(t);
    let body = literal_body(t, esc, t.len());
    assert(string_text(t, StringFormat::Literal) =~= seq![40u8] + (body + seq![41u8]));
    lemma_word_split(s, p, seq![40u8], body + seq![41u8]);
    lemma_byte_at(s, p, seq![40u8], 0);
    lemma_literal_read(s, p + 1, t, 0);
    assert(paren_scan(t, 0).1.len() == 0);
    assert(literal_depth(t, 0) == 0);
    assert(literal_body(t, esc, 0).len() == 0);
    assert(t.subrange(0, t.len() as int) =~= t);
    lemma_first_byte(s, p);
    assert(digits_end(s, p) == p);
    assert(after_sign(s, p) == p);
    assert(spec_real_end(s, p) is None);
}

/// The hexadecimal digit values that stand for `t`, two for each byte.
pub open spec fn byte_nibbles(t: Seq<u8>) -> Seq<int> {
    Seq::new((2 * t.len()) as nat, |i: int| if i % 2 == 0 { (t[i / 2] / 16) as int } else { (t[i / 2] % 16) as int })
}

pub proof fn lemma_pack_byte_nibbles(t: Seq<u8>)
    ensures
        pack_nibbles(byte_nibbles(t)) == t,
    decreases t.len(),
{
    let n = byte_nibbles(t);
    if t.len() > 0 {
        let rest = t.subrange(1, t.len() as int);
        lemma_pack_byte_nibbles(rest);
        assert(n.subrange(2, n.len() as int) =~= byte_nibbles(rest));
        assert(((t[0] / 16) as int * 16 + (t[0] % 16) as int) as u8 == t[0]);
        assert(seq![t[0]] + rest =~= t);
    } else {
        assert(t =~= Seq::<u8>::empty());
    }
}

pub proof fn lemma_hex_body(t: Seq<u8>, n: nat)
    requires
        n <= t.len(),
    ensures
        hex_body(t, n).len() == 2 * n,
        forall|i: int| 0 <= i < 2 * n ==> #[trigger] hex_body(t, n)[i] == hex_pair(t[i / 2])[i % 2],
    decreases n,
{
    if n > 0 {
        lemma_hex_body(t, (n - 1) as nat);
        lemma_hex_pair(t[n - 1]);
        let prev = hex_body(t, (n - 1) as nat);
        assert forall|i: int| 0 <= i < 2 * n implies #[trigger] hex_body(t, n)[i] == hex_pair(t[i / 2])[i % 2] by {
            if i >= 2 * (n - 1) {
                assert(hex_body(t, n)[i] == hex_pair(t[n - 1])[i - 2 * (n - 1)]);
            } else {
                assert(hex_body(t, n)[i] == prev[i]);
            }
        }
    }
}

/// The hexadecimal digits of a string as written read back from digit `j` on.
pub proof fn lemma_hex_nibbles_read(s: Seq<u8>, b: int, t: Seq<u8>, j: int)
    requires
        has_word(s, b, hex_body(t, t.len()) + seq![62u8]),
        0 <= j <= 2 * t.len(),
    ensures
        hex_nibbles(s, b + j) == (byte_nibbles(t).subrange(j, 2 * t.len() as int), b + 2 * t.len()),
    decreases 2 * t.len() - j,
{
    lemma_hex_body(t, t.len());
    let body = hex_body(t, t.len());
    lemma_word_split(s, b, body, seq![62u8]);
    let q = b + j;
    if j == 2 * t.len() {
        lemma_byte_at(s, b + body.len(), seq![62u8], 0);
        assert(skip_white(s, q) == q);
        assert(byte_nibbles(t).subrange(j, 2 * t.len() as int) =~= Seq::<int>::empty());
    } else {
        lemma_byte_at(s, b, body, j);
        let c = hex_pair(t[j / 2])[j % 2];
        lemma_hex_pair(t[j / 2]);
        assert(s[q] == c);
        assert(!is_white(c));
        assert(skip_white(s, q) == q);
        lemma_hex_nibbles_read(s, b, t, j + 1);
        let n = byte_nibbles(t);
        assert(hex_value(c) == n[j]) by {
            lemma_hex_upper((t[j / 2] / 16) as int);
            lemma_hex_upper((t[j / 2] % 16) as int);
        }
        assert(seq![n[j]] + n.subrange(j + 1, 2 * t.len() as int) =~= n.subrange(j, 2 * t.len() as int));
    }
}

/// A hexadecimal string reads back.
pub proof fn lemma_read_hex(s: Seq<u8>, p: int, t: Seq<u8>)
    requires
        has_word(s, p, string_text(t, StringFormat::Hexadecimal)),
    ensures
        spec_direct_objects(s, p) == Some((PdfValue::Str(t, StringFormat::Hexadecimal),
            p + string_text(t, StringFormat::Hexadecimal).len())),
        spec_hex_string(s, p) == Some((t, p + string_text(t, StringFormat::Hexadecimal).len())),
        spec_literal_string(s, p) is None,
{
    let body = hex_body(t, t.len());
    lemma_hex_body(t, t.len());
    assert(string_text(t, StringFormat::Hexadecimal) =~= seq![60u8] + (body + seq![62u8]));
    lemma_word_split(s, p, seq![60u8], body + seq![62u8]);
    lemma_byte_at(s, p, seq![60u8], 0);
    lemma_hex_nibbles_read(s, p + 1, t, 0);
    lemma_word_split(s, p + 1, body, seq![62u8]);
    lemma_byte_at(s, p + 1 + body.len(), seq![62u8], 0);
    let e = p + 1 + 2 * t.len();
    assert(skip_white(s, e) == e);
    assert(byte_nibbles(t).subrange(0, 2 * t.len() as int) =~= byte_nibbles(t));
    lemma_pack_byte_nibbles(t);
    lemma_first_byte(s, p);
    assert(digits_end(s, p) == p);
    assert(after_sign(s, p) == p);
    assert(spec_real_end(s, p) is None);
    assert(spec_literal_string(s, p) is None);
}

/// Whether the writer writes `v` in a form that the parser reads back: no
/// streams, which are no direct objects; reals written as numbers; names
/// without NUL; literal strings nested no deeper than the parser follows;
/// dictionaries with each key once.
pub open spec fn writable(v: PdfValue) -> bool
    decreases v,
{
    match v {
        PdfValue::Real(d) => real_text(d),
        PdfValue::Name(n) => name_readable(n),
        PdfValue::Str(t, f) => f == StringFormat::Hexadecimal || literal_readable(t),
        PdfValue::Array(items) => forall|i: int| 0 <= i < items.len() ==> writable(#[trigger] items[i]),
        PdfValue::Dictionary(entries) => keys_distinct(entries) && forall|i: int| 0 <= i < entries.len()
            ==> name_readable(#[trigger] entries[i].0) && writable(entries[i].1),
        PdfValue::Stream(_, _) => false,
        _ => true,
    }
}

/// The first byte of a value as written.
pub proof fn lemma_first_written(v: PdfValue)
    requires
        writable(v),
    ensures
        value_text(v).len() > 0,
        !is_white(value_text(v)[0]),
        value_text(v)[0] != 37,
        value_text(v)[0] != 82,
        value_text(v)[0] != 93,
        value_text(v)[0] != 62,
        !value_needs_separator(v) ==> is_delim(value_text(v)[0]),
        (v is Integer && v->Integer_0 >= 0) || v is Reference || (v is Real && is_digit(value_text(v)[0]))
            || !is_digit(value_text(v)[0]),
{
    match v {
        PdfValue::Integer(i) => {
            if i >= 0 {
                lemma_decimal_digits(i as nat);
            }
        },
        PdfValue::Real(d) => {
            assert(d.len() > 0);
        },
        PdfValue::Name(n) => {},
        PdfValue::Str(t, f) => {},
        PdfValue::Reference(id, g) => {
            lemma_decimal_digits(id as nat);
        },
        _ => {},
    }
}

/// A name as a dictionary key reads back.
pub proof fn lemma_spec_name_read(s: Seq<u8>, p: int, n: Seq<u8>)
    requires
        has_word(s, p, name_text(n)),
        ends_token(s, p + name_text(n).len()),
        name_readable(n),
    ensures
        spec_name(s, p) == Some((n, p + name_text(n).len())),
{
    lemma_word_split(s, p, seq![47u8], name_body(n, n.len()));
    lemma_byte_at(s, p, seq![47u8], 0);
    lemma_name_chars_read(s, p + 1, n, 0);
    assert(n.subrange(0, n.len() as int) =~= n);
}

/// Nothing is read at a closing bracket or at the end.
pub proof fn lemma_no_object_at(s: Seq<u8>, p: int)
    requires
        0 <= p <= s.len(),
        p < s.len() ==> s[p] == 93 || s[p] == 62,
    ensures
        spec_direct_objects(s, p) is None,
        spec_name(s, p) is None,
        spec_unsigned(s, p, u16::MAX as nat) is None,
{
    lemma_first_byte(s, p);
    assert(digits_end(s, p) == p);
    assert(after_sign(s, p) == p);
    assert(spec_real_end(s, p) is None);
}

/// A number that starts a written value does not start a reference's
/// generation followed by `R`, where no `R` follows the value.
pub proof fn lemma_no_reference_in(w: PdfValue, s: Seq<u8>, q: int)
    requires
        writable(w),
        has_word(s, q, value_text(w)),
        ends_token(s, q + value_text(w).len()),
        !(0 <= space_end(s, q + value_text(w).len()) < s.len() && s[space_end(s, q + value_text(w).len())] == 82),
    ensures
        match spec_unsigned(s, q, u16::MAX as nat) {
            Some((_, e2)) => !(0 <= space_end(s, e2) < s.len() && s[space_end(s, e2)] == 82),
            None => true,
        },
{
    lemma_first_written(w);
    lemma_byte_at(s, q, value_text(w), 0);
    let e = q + value_text(w).len();
    match w {
        PdfValue::Integer(i) => {
            if i >= 0 {
                lemma_decimal_read(s, q, i as nat);
            } else {
                assert(digits_end(s, q) == q);
            }
        },
        PdfValue::Reference(id, g) => {
            let a = decimal(id as nat);
            let gg = decimal(g as nat);
            assert(value_text(w) =~= a + (seq![32u8] + (gg + seq![32u8, 82])));
            lemma_word_split(s, q, a, seq![32u8] + (gg + seq![32u8, 82]));
            lemma_word_split(s, q + a.len(), seq![32u8], gg + seq![32u8, 82]);
            lemma_byte_at(s, q + a.len(), seq![32u8], 0);
            lemma_decimal_read(s, q, id as nat);
            lemma_word_split(s, q + a.len() + 1, gg, seq![32u8, 82]);
            lemma_decimal_digits(g as nat);
            lemma_byte_at(s, q + a.len() + 1, gg, 0);
            lemma_space_end_one(s, q + a.len());
        },
        PdfValue::Real(d) => {
            if is_digit(d[0]) {
                lemma_digits_end_within(s, q, d, 0);
                let dd = digits_end(d, 0);
                assert(after_sign(d, 0) == 0);
                assert(dd < d.len() && d[dd] == 46);
                lemma_byte_at(s, q, d, dd);
                lemma_space_end_here(s, q + dd);
            } else {
                assert(digits_end(s, q) == q);
            }
        },
        _ => {
            assert(digits_end(s, q) == q);
        },
    }
}

/// A written value reads back where it ends a token and, for an integer,
/// starts no reference.
pub proof fn lemma_read_value(v: PdfValue, s: Seq<u8>, p: int)
    requires
        writable(v),
        has_word(s, p, value_text(v)),
        ends_token(s, p + value_text(v).len()),
        v is Integer ==> no_reference_tail(s, p + value_text(v).len()),
    ensures
        spec_direct_objects(s, p) == Some((v, p + value_text(v).len())),
    decreases v, 0nat,
{
    match v {
        PdfValue::Null => lemma_read_null(s, p),
        PdfValue::Boolean(b) => lemma_read_bool(s, p, b),
        PdfValue::Integer(i) => lemma_read_integer(s, p, i),
        PdfValue::Real(d) => lemma_read_real(s, p, d),
        PdfValue::Name(n) => lemma_read_name(s, p, n),
        PdfValue::Str(t, f) => {
            if f == StringFormat::Literal {
                lemma_read_literal(s, p, t);
            } else {
                lemma_read_hex(s, p, t);
            }
        },
        PdfValue::Reference(id, g) => lemma_read_reference(s, p, id, g),
        PdfValue::Array(items) => {
            let body = items_text(items, items.len());
            assert(value_text(v) =~= seq![91u8] + (body + seq![93u8]));
            lemma_word_split(s, p, seq![91u8], body + seq![93u8]);
            lemma_byte_at(s, p, seq![91u8], 0);
            lemma_read_items(items, s, p + 1, 0);
            lemma_word_split(s, p + 1, body, seq![93u8]);
            lemma_byte_at(s, p + 1 + body.len(), seq![93u8], 0);
            if items.len() > 0 {
                lemma_items_text_prefix(items, 1, items.len());
                assert(items_text(items, 1) =~= value_text(items[0]));
                lemma_first_written(items[0]);
                assert(body[0] == items_text(items, 1)[0]);
                lemma_byte_at(s, p + 1, body, 0);
            }
            lemma_space_end_here(s, p + 1);
            assert(item_start(items, 0) == 0);
            assert(items.subrange(0, items.len() as int) =~= items);
            lemma_first_byte(s, p);
            assert(digits_end(s, p) == p);
            assert(after_sign(s, p) == p);
            assert(spec_real_end(s, p) is None);
        },
        PdfValue::Dictionary(entries) => {
            let body = entries_text(entries, entries.len());
            assert(value_text(v) =~= seq![60u8, 60] + (body + seq![62u8, 62]));
            lemma_word_split(s, p, seq![60u8, 60], body + seq![62u8, 62]);
            lemma_byte_at(s, p, seq![60u8, 60], 0);
            lemma_byte_at(s, p, seq![60u8, 60], 1);
            lemma_read_entries(entries, s, p + 2, 0);
            lemma_word_split(s, p + 2, body, seq![62u8, 62]);
            lemma_byte_at(s, p + 2 + body.len(), seq![62u8, 62], 0);
            lemma_byte_at(s, p + 2 + body.len(), seq![62u8, 62], 1);
            assert(entries.subrange(0, 0) =~= Seq::<(Seq<u8>, PdfValue)>::empty());
            assert(entries.subrange(0, entries.len() as int) =~= entries);
            lemma_first_byte(s, p);
            assert(digits_end(s, p) == p);
            assert(after_sign(s, p) == p);
            assert(spec_real_end(s, p) is None);
            assert(skip_white(s, p + 1) == p + 1);
            assert(hex_nibbles(s, p + 1).1 == p + 1);
            assert(spec_hex_string(s, p) is None);
            if entries.len() > 0 {
                lemma_byte_at(s, p + 2, body, 0);
                lemma_entries_text_prefix(entries, 1, entries.len());
                assert(body[0] == 47) by {
                    assert(entries_text(entries, 1)[0] == 47);
                }
            } else {
                lemma_byte_at(s, p + 2 + body.len(), seq![62u8, 62], 0);
            }
            lemma_space_end_here(s, p + 2);
        },
        PdfValue::Stream(_, _) => {},
    }
}

/// Where each element of an array starts as written: after the elements
/// before it and the space it needs.
pub open spec fn item_start(items: Seq<PdfValue>, k: nat) -> int {
    items_text(items, k).len() + if 0 < k < items.len() && value_needs_separator(items[k as int]) { 1int } else { 0int }
}

pub proof fn lemma_items_text_prefix(items: Seq<PdfValue>, k: nat, m: nat)
    requires
        k <= m <= items.len(),
    ensures
        items_text(items, k).len() <= items_text(items, m).len(),
        items_text(items, m).subrange(0, items_text(items, k).len() as int) == items_text(items, k),
    decreases m,
{
    if k < m {
        lemma_items_text_prefix(items, k, (m - 1) as nat);
        let prev = items_text(items, (m - 1) as nat);
        let v = items[m - 1];
        let tail = (if m > 1 && value_needs_separator(v) { seq![32u8] } else { Seq::<u8>::empty() }) + value_text(v);
        assert(items_text(items, m) =~= prev + tail);
        assert(items_text(items, m).subrange(0, items_text(items, k).len() as int)
            =~= prev.subrange(0, items_text(items, k).len() as int));
    } else {
        assert(items_text(items, m).subrange(0, items_text(items, k).len() as int) =~= items_text(items, k));
    }
}

/// Element `k` of an array as written stands at its start.
pub proof fn lemma_item_at(items: Seq<PdfValue>, s: Seq<u8>, b: int, k: nat)
    requires
        has_word(s, b, items_text(items, items.len())),
        k < items.len(),
    ensures
        has_word(s, b + item_start(items, k), value_text(items[k as int])),
        b + item_start(items, k) + value_text(items[k as int]).len() == b + items_text(items, (k + 1) as nat).len(),
        b + items_text(items, (k + 1) as nat).len() <= b + items_text(items, items.len()).len(),
        k > 0 && value_needs_separator(items[k as int]) ==> s[b + items_text(items, k).len()] == 32,
{
    let w = items[k as int];
    let k1 = (k + 1) as nat;
    let sep = if k > 0 && value_needs_separator(w) { seq![32u8] } else { Seq::<u8>::empty() };
    assert(items_text(items, k1) =~= items_text(items, k) + sep + value_text(w));
    lemma_items_text_prefix(items, k1, items.len());
    lemma_word_prefix(s, b, items_text(items, items.len()), items_text(items, k1).len() as int);
    lemma_word_split(s, b, items_text(items, k) + sep, value_text(w));
    lemma_word_split(s, b, items_text(items, k), sep);
    if sep.len() > 0 {
        lemma_byte_at(s, b + items_text(items, k).len(), sep, 0);
    }
}

/// What follows element `k` of an array as written: a space and the next
/// element, the next element, or the closing bracket.
pub proof fn lemma_item_follow(items: Seq<PdfValue>, s: Seq<u8>, b: int, k: nat)
    requires
        has_word(s, b, items_text(items, items.len()) + seq![93u8]),
        forall|i: int| 0 <= i < items.len() ==> writable(#[trigger] items[i]),
        k < items.len(),
    ensures
        ends_token(s, b + items_text(items, (k + 1) as nat).len()),
        space_end(s, b + items_text(items, (k + 1) as nat).len()) == b + item_start(items, (k + 1) as nat),
        !(0 <= b + item_start(items, (k + 1) as nat) < s.len() && s[b + item_start(items, (k + 1) as nat)] == 82),
        (k + 1 == items.len()) ==> s[b + item_start(items, (k + 1) as nat)] == 93,
{
    let n = items.len();
    let body = items_text(items, n);
    let close = b + body.len();
    let k1 = (k + 1) as nat;
    let end = b + items_text(items, k1).len();
    let next = b + item_start(items, k1);
    lemma_word_split(s, b, body, seq![93u8]);
    lemma_byte_at(s, close, seq![93u8], 0);
    if k1 < n {
        let w2 = items[k1 as int];
        lemma_item_at(items, s, b, k1);
        lemma_first_written(w2);
        lemma_byte_at(s, next, value_text(w2), 0);
        if value_needs_separator(w2) {
            lemma_space_end_one(s, end);
        } else {
            lemma_space_end_here(s, end);
        }
    } else {
        lemma_space_end_here(s, end);
    }
}

/// The elements of an array as written read back from element `k` on.
pub proof fn lemma_read_items(items: Seq<PdfValue>, s: Seq<u8>, b: int, k: nat)
    requires
        has_word(s, b, items_text(items, items.len()) + seq![93u8]),
        forall|i: int| 0 <= i < items.len() ==> writable(#[trigger] items[i]),
        k <= items.len(),
    ensures
        spec_array_items(s, b + item_start(items, k)) == (items.subrange(k as int, items.len() as int),
            b + items_text(items, items.len()).len()),
    decreases items, items.len() - k,
{
    let n = items.len();
    let body = items_text(items, n);
    let close = b + body.len();
    lemma_word_split(s, b, body, seq![93u8]);
    lemma_byte_at(s, close, seq![93u8], 0);
    if k == n {
        lemma_no_object_at(s, close);
        assert(item_start(items, k) == body.len());
        assert(spec_direct_object(s, close) is None);
        assert(items.subrange(k as int, n as int) =~= Seq::<PdfValue>::empty());
    } else {
        let w = items[k as int];
        let k1 = (k + 1) as nat;
        let start = b + item_start(items, k);
        let end = b + items_text(items, k1).len();
        let next = b + item_start(items, k1);
        lemma_item_at(items, s, b, k);
        lemma_first_written(w);
        lemma_item_follow(items, s, b, k);
        if w is Integer {
            if k1 < n {
                let w2 = items[k1 as int];
                lemma_item_at(items, s, b, k1);
                lemma_item_follow(items, s, b, k1);
                lemma_no_reference_in(w2, s, next);
            } else {
                lemma_no_object_at(s, close);
            }
        }
        lemma_read_value(w, s, start);
        assert(spec_direct_object(s, start) == Some((w, next)));
        assert(start < next <= s.len());
        lemma_read_items(items, s, b, k1);
        assert(seq![w] + items.subrange(k1 as int, n as int) =~= items.subrange(k as int, n as int));
    }
}

/// Where each entry of a dictionary starts as written.
pub proof fn lemma_entries_text_prefix(entries: Seq<(Seq<u8>, PdfValue)>, k: nat, m: nat)
    requires
        k <= m <= entries.len(),
    ensures
        entries_text(entries, k).len() <= entries_text(entries, m).len(),
        entries_text(entries, m).subrange(0, entries_text(entries, k).len() as int) == entries_text(entries, k),
    decreases m,
{
    if k < m {
        lemma_entries_text_prefix(entries, k, (m - 1) as nat);
        let prev = entries_text(entries, (m - 1) as nat);
        let (key, v) = entries[m - 1];
        let tail = name_text(key) + (if value_needs_separator(v) { seq![32u8] } else { Seq::<u8>::empty() }) + value_text(v);
        assert(entries_text(entries, m) =~= prev + tail);
        assert(entries_text(entries, m).subrange(0, entries_text(entries, k).len() as int)
            =~= prev.subrange(0, entries_text(entries, k).len() as int));
    } else {
        assert(entries_text(entries, m).subrange(0, entries_text(entries, k).len() as int) =~= entries_text(entries, k));
    }
}

/// The entries of a dictionary as written read back from entry `k` on.
pub proof fn lemma_read_entries(entries: Seq<(Seq<u8>, PdfValue)>, s: Seq<u8>, b: int, k: nat)
    requires
        has_word(s, b, entries_text(entries, entries.len()) + seq![62u8, 62]),
        keys_distinct(entries),
        forall|i: int| 0 <= i < entries.len() ==> name_readable(#[trigger] entries[i].0) && writable(entries[i].1),
        k <= entries.len(),
    ensures
        spec_dict_entries(s, b + entries_text(entries, k).len(), entries.subrange(0, k as int))
            == (entries, b + entries_text(entries, entries.len()).len()),
    decreases entries, entries.len() - k,
{
    let n = entries.len();
    let body = entries_text(entries, n);
    let close = b + body.len();
    lemma_word_split(s, b, body, seq![62u8, 62]);
    lemma_byte_at(s, close, seq![62u8, 62], 0);
    if k == n {
        lemma_no_object_at(s, close);
        assert(entries.subrange(0, n as int) =~= entries);
    } else {
        let (key, w) = entries[k as int];
        let k1 = (k + 1) as nat;
        let sep = if value_needs_separator(w) { seq![32u8] } else { Seq::<u8>::empty() };
        let q = b + entries_text(entries, k).len();
        let e1 = q + name_text(key).len();
        let vstart = e1 + sep.len();
        let end = b + entries_text(entries, k1).len();
        assert(entries_text(entries, k1) =~= entries_text(entries, k) + name_text(key) + sep + value_text(w));
        lemma_entries_text_prefix(entries, k1, n);
        lemma_word_prefix(s, b, body, entries_text(entries, k1).len() as int);
        lemma_word_split(s, b, entries_text(entries, k) + name_text(key) + sep, value_text(w));
        lemma_word_split(s, b, entries_text(entries, k) + name_text(key), sep);
        lemma_word_split(s, b, entries_text(entries, k), name_text(key));
        lemma_first_written(w);
        lemma_byte_at(s, vstart, value_text(w), 0);
        assert(name_readable(entries[k as int].0));
        if value_needs_separator(w) {
            lemma_byte_at(s, e1, sep, 0);
            lemma_space_end_one(s, e1);
        } else {
            lemma_space_end_here(s, e1);
        }
        lemma_spec_name_read(s, q, key);
        assert(vstart == space_end(s, e1));
        // What follows the value: the next key or the closing brackets.
        if k1 < n {
            let (key2, w2) = entries[k1 as int];
            lemma_entries_text_prefix(entries, (k1 + 1) as nat, n);
            let sep2 = if value_needs_separator(w2) { seq![32u8] } else { Seq::<u8>::empty() };
            assert(entries_text(entries, (k1 + 1) as nat) =~= entries_text(entries, k1) + (name_text(key2) + sep2 + value_text(w2)));
            lemma_word_prefix(s, b, body, entries_text(entries, (k1 + 1) as nat).len() as int);
            lemma_word_split(s, b, entries_text(entries, k1), name_text(key2) + sep2 + value_text(w2));
            lemma_byte_at(s, end, name_text(key2) + sep2 + value_text(w2), 0);
            assert(s[end] == 47);
            lemma_first_byte(s, end);
            assert(digits_end(s, end) == end);
        } else {
            lemma_no_object_at(s, close);
        }
        lemma_space_end_here(s, end);
        lemma_read_value(w, s, vstart);
        assert(spec_direct_object(s, vstart) == Some((w, end)));
        lemma_find_key(entries.subrange(0, k as int), key);
        assert(find_key(entries.subrange(0, k as int), key) is None) by {
            if find_key(entries.subrange(0, k as int), key) is Some {
                let i = find_key(entries.subrange(0, k as int), key)->0;
                assert(entries[i].0 == entries[k as int].0);
            }
        }
        assert(entries_set(entries.subrange(0, k as int), key, w) =~= entries.subrange(0, k1 as int));
        lemma_read_entries(entries, s, b, k1);
    }
}

/// Reading back what is written: the text that the writer writes for a
/// value that it can write so (see `writable`) reads back as that value,
/// with nothing left over.
pub proof fn lemma_written_value_reads_back(v: PdfValue)
    requires
        writable(v),
    ensures
        spec_direct_object(value_text(v), 0) == Some((v, value_text(v).len() as int)),
{
    let s = value_text(v);
    assert(s.subrange(0, s.len() as int) =~= s);
    lemma_space_end_here(s, s.len() as int);
    if v is Integer {
        lemma_no_object_at(s, s.len() as int);
    }
    lemma_read_value(v, s, 0);
}

/// Whether an operator's bytes read back as an operator: at least one
/// operator character and nothing else, and not starting as `null`, `true`
/// or `false` do, which read as operands.
pub open spec fn operator_readable(op: Seq<u8>) -> bool {
    &&& op.len() > 0
    &&& forall|i: int| 0 <= i < op.len() ==> is_operator_char(#[trigger] op[i])
    &&& !has_word(op, 0, null_word())
    &&& !has_word(op, 0, true_word())
    &&& !has_word(op, 0, false_word())
}

/// Whether an operand is written so that it reads back as an operand: a
/// writable value other than a reference, which a content stream cannot
/// hold.
pub open spec fn operand_writable(v: PdfValue) -> bool {
    writable(v) && !(v is Reference)
}

/// Whether each operation of a content stream is written so that it reads
/// back.
pub open spec fn content_writable(ops: Seq<Operation>) -> bool {
    forall|i: int| 0 <= i < ops.len() ==> {
        &&& operator_readable(encode_utf8(#[trigger] ops[i].operator@))
        &&& forall|j: int| 0 <= j < ops[i].operands@.len() ==> operand_writable(#[trigger] ops[i].operands@[j]@)
    }
}

/// An operand as written reads back.
pub proof fn lemma_read_operand(v: PdfValue, s: Seq<u8>, p: int)
    requires
        operand_writable(v),
        has_word(s, p, value_text(v)),
        ends_token(s, p + value_text(v).len()),
    ensures
        spec_operand_value(s, p) == Some((v, p + value_text(v).len())),
{
    lemma_first_written(v);
    lemma_byte_at(s, p, value_text(v), 0);
    lemma_first_byte(s, p);
    match v {
        PdfValue::Null => lemma_read_null(s, p),
        PdfValue::Boolean(b) => lemma_read_bool(s, p, b),
        PdfValue::Integer(i) => lemma_integer_parts(s, p, i),
        PdfValue::Real(d) => lemma_read_real(s, p, d),
        PdfValue::Name(n) => lemma_spec_name_read(s, p, n),
        PdfValue::Str(t, f) => {
            if f == StringFormat::Literal {
                lemma_read_literal(s, p, t);
            } else {
                lemma_read_hex(s, p, t);
            }
        },
        PdfValue::Array(items) => {
            lemma_read_value(v, s, p);
        },
        PdfValue::Dictionary(entries) => {
            lemma_read_value(v, s, p);
            lemma_byte_at(s, p, value_text(v), 1);
            assert(skip_white(s, p + 1) == p + 1);
            assert(hex_nibbles(s, p + 1).1 == p + 1);
            assert(spec_hex_string(s, p) is None);
        },
        _ => {},
    }
}

pub proof fn lemma_operands_text_prefix(operands: Seq<PdfValue>, k: nat, m: nat)
    requires
        k <= m <= operands.len(),
    ensures
        operands_text(operands, k).len() <= operands_text(operands, m).len(),
        operands_text(operands, m).subrange(0, operands_text(operands, k).len() as int) == operands_text(operands, k),
    decreases m,
{
    if k < m {
        lemma_operands_text_prefix(operands, k, (m - 1) as nat);
        let prev = operands_text(operands, (m - 1) as nat);
        assert(operands_text(operands, m) == prev + value_text(operands[m - 1]) + seq![32u8]);
        assert(operands_text(operands, m).subrange(0, operands_text(operands, k).len() as int)
            =~= prev.subrange(0, operands_text(operands, k).len() as int));
    } else {
        assert(operands_text(operands, m).subrange(0, operands_text(operands, k).len() as int) =~= operands_text(operands, k));
    }
}

/// The operands of an operation as written read back from operand `k` on,
/// up to the operator.
pub proof fn lemma_read_operands(operands: Seq<PdfValue>, op: Seq<u8>, s: Seq<u8>, b: int, k: nat)
    requires
        has_word(s, b, operands_text(operands, operands.len()) + op + seq![10u8]),
        operator_readable(op),
        forall|j: int| 0 <= j < operands.len() ==> operand_writable(#[trigger] operands[j]),
        k <= operands.len(),
    ensures
        spec_operands(s, b + operands_text(operands, k).len())
            == (operands.subrange(k as int, operands.len() as int), b + operands_text(operands, operands.len()).len()),
    decreases operands.len() - k,
{
    let n = operands.len();
    let body = operands_text(operands, n);
    let e = b + body.len();
    assert(body + op + seq![10u8] =~= body + (op + seq![10u8]));
    lemma_word_split(s, b, body, op + seq![10u8]);
    lemma_word_split(s, e, op, seq![10u8]);
    lemma_byte_at(s, e, op, 0);
    let q = b + operands_text(operands, k).len();
    if k == n {
        assert(operands.subrange(k as int, n as int) =~= Seq::<PdfValue>::empty());
        // An operator character starts no operand.
        assert(is_operator_char(op[0]));
        lemma_first_byte(s, e);
        lemma_operator_not_word(s, e, op, null_word());
        lemma_operator_not_word(s, e, op, true_word());
        lemma_operator_not_word(s, e, op, false_word());
        assert(digits_end(s, e) == e);
        assert(after_sign(s, e) == e);
        assert(spec_real_end(s, e) is None);
        assert(spec_operand_value(s, e) is None);
    } else {
        let v = operands[k as int];
        let k1 = (k + 1) as nat;
        let ve = q + value_text(v).len();
        assert(operands_text(operands, k1) == operands_text(operands, k) + value_text(v) + seq![32u8]);
        lemma_operands_text_prefix(operands, k1, n);
        lemma_word_prefix(s, b, body, operands_text(operands, k1).len() as int);
        lemma_word_split(s, b, operands_text(operands, k) + value_text(v), seq![32u8]);
        lemma_word_split(s, b, operands_text(operands, k), value_text(v));
        lemma_byte_at(s, ve, seq![32u8], 0);
        lemma_read_operand(v, s, q);
        // After the space: the next operand or the operator.
        let next = ve + 1;
        if k1 < n {
            let w = operands[k1 as int];
            lemma_operands_text_prefix(operands, (k1 + 1) as nat, n);
            assert(operands_text(operands, (k1 + 1) as nat) == operands_text(operands, k1) + value_text(w) + seq![32u8]);
            lemma_word_prefix(s, b, body, operands_text(operands, (k1 + 1) as nat).len() as int);
            lemma_word_split(s, b, operands_text(operands, k1) + value_text(w), seq![32u8]);
            lemma_word_split(s, b, operands_text(operands, k1), value_text(w));
            lemma_first_written(w);
            lemma_byte_at(s, next, value_text(w), 0);
        } else {
            assert(next == e);
        }
        assert(content_space_end(s, next) == next);
        assert(content_space_end(s, ve) == next);
        lemma_read_operands(operands, op, s, b, k1);
        assert(seq![v] + operands.subrange(k1 as int, n as int) =~= operands.subrange(k as int, n as int));
    }
}

pub proof fn lemma_operations_text_prefix(ops: Seq<Operation>, k: nat, m: nat)
    requires
        k <= m <= ops.len(),
    ensures
        operations_text(ops, k).len() <= operations_text(ops, m).len(),
        operations_text(ops, m).subrange(0, operations_text(ops, k).len() as int) == operations_text(ops, k),
    decreases m,
{
    if k < m {
        lemma_operations_text_prefix(ops, k, (m - 1) as nat);
        let prev = operations_text(ops, (m - 1) as nat);
        assert(operations_text(ops, m) == prev + operation_text(values_of(ops[m - 1].operands@), ops[m - 1].operator@));
        assert(operations_text(ops, m).subrange(0, operations_text(ops, k).len() as int)
            =~= prev.subrange(0, operations_text(ops, k).len() as int));
    } else {
        assert(operations_text(ops, m).subrange(0, operations_text(ops, k).len() as int) =~= operations_text(ops, k));
    }
}

/// An operator followed by a line feed does not hold a word that the
/// operator does not start with, where the word holds no line feed.
pub proof fn lemma_operator_not_word(s: Seq<u8>, e: int, op: Seq<u8>, w: Seq<u8>)
    requires
        has_word(s, e, op + seq![10u8]),
        !has_word(op, 0, w),
        forall|i: int| 0 <= i < w.len() ==> w[i] != 10,
    ensures
        !has_word(s, e, w),
{
    if has_word(s, e, w) {
        if w.len() <= op.len() {
            assert forall|i: int| 0 <= i < w.len() implies op[i] == w[i] by {
                lemma_byte_at(s, e, w, i);
                lemma_byte_at(s, e, op + seq![10u8], i);
            }
            assert(op.subrange(0, w.len() as int) =~= w);
        } else {
            lemma_byte_at(s, e, w, op.len() as int);
            lemma_byte_at(s, e, op + seq![10u8], op.len() as int);
        }
    }
}

/// An operation written at `p` reads back, where what follows it starts
/// with no content white-space.
pub proof fn lemma_single_operation(s: Seq<u8>, p: int, operands: Seq<PdfValue>, op: Seq<u8>)
    requires
        has_word(s, p, operands_text(operands, operands.len()) + op + seq![10u8]),
        operator_readable(op),
        forall|j: int| 0 <= j < operands.len() ==> operand_writable(#[trigger] operands[j]),
        ({
            let f = p + (operands_text(operands, operands.len()) + op + seq![10u8]).len();
            f < s.len() ==> !is_content_white(s[f])
        }),
    ensures
        spec_operation(s, p) == Some((op, operands, p + (operands_text(operands, operands.len()) + op + seq![10u8]).len())),
{
    let t = operands_text(operands, operands.len()) + op + seq![10u8];
    lemma_operation_text_first(operands, op);
    lemma_byte_at(s, p, t, 0);
    assert(comments_end(s, p) == p);
    assert(operands_text(operands, 0).len() == 0);
    lemma_read_operands(operands, op, s, p, 0);
    assert(operands.subrange(0, operands.len() as int) =~= operands);
    let e = p + operands_text(operands, operands.len()).len();
    let f = e + op.len();
    assert(t =~= operands_text(operands, operands.len()) + (op + seq![10u8]));
    lemma_word_split(s, p, operands_text(operands, operands.len()), op + seq![10u8]);
    lemma_word_split(s, e, op, seq![10u8]);
    assert forall|i: int| e <= i < f implies is_operator_char(s[i]) by {
        lemma_byte_at(s, e, op, i - e);
    }
    lemma_byte_at(s, f, seq![10u8], 0);
    lemma_operator_end_at(s, e, f);
    assert(s.subrange(e, f) =~= op) by {
        assert forall|i: int| 0 <= i < op.len() implies s.subrange(e, f)[i] == op[i] by {
            lemma_byte_at(s, e, op, i);
        }
    }
    assert(content_space_end(s, f + 1) == f + 1);
    assert(content_space_end(s, f) == f + 1);
}

/// The first byte of an operation as written: that of its first operand,
/// or of its operator.
pub proof fn lemma_operation_text_first(operands: Seq<PdfValue>, op: Seq<u8>)
    requires
        operator_readable(op),
        forall|j: int| 0 <= j < operands.len() ==> operand_writable(#[trigger] operands[j]),
    ensures
        (operands_text(operands, operands.len()) + op + seq![10u8]).len() > 0,
        !is_content_white((operands_text(operands, operands.len()) + op + seq![10u8])[0]),
        (operands_text(operands, operands.len()) + op + seq![10u8])[0] != 37,
{
    if operands.len() > 0 {
        lemma_operands_text_prefix(operands, 1, operands.len());
        assert(operands_text(operands, 1) == operands_text(operands, 0) + value_text(operands[0]) + seq![32u8]);
        lemma_first_written(operands[0]);
        assert((operands_text(operands, operands.len()) + op + seq![10u8])[0] == operands_text(operands, operands.len())[0]);
        assert(operands_text(operands, operands.len())[0] == operands_text(operands, 1)[0]);
    }
}

/// Operation `k` of a content stream as written reads back.
pub proof fn lemma_operation_at(ops: Seq<Operation>, s: Seq<u8>, k: nat)
    requires
        s == operations_text(ops, ops.len()),
        content_writable(ops),
        k < ops.len(),
    ensures
        spec_operation(s, operations_text(ops, k).len() as int) == Some((encode_utf8(ops[k as int].operator@),
            values_of(ops[k as int].operands@), operations_text(ops, (k + 1) as nat).len() as int)),
{
    let n = ops.len();
    let p = operations_text(ops, k).len() as int;
    let o = ops[k as int];
    let k1 = (k + 1) as nat;
    let operands = values_of(o.operands@);
    let op = encode_utf8(o.operator@);
    let t = operation_text(operands, o.operator@);
    assert(forall|j: int| 0 <= j < operands.len() ==> operands[j] == o.operands@[j]@);
    assert(operator_readable(op));
    assert(operations_text(ops, k1) == operations_text(ops, k) + t);
    lemma_operations_text_prefix(ops, k1, n);
    assert(s.subrange(0, s.len() as int) =~= s);
    lemma_word_prefix(s, 0, s, operations_text(ops, k1).len() as int);
    lemma_word_split(s, 0, operations_text(ops, k), t);
    let next = operations_text(ops, k1).len() as int;
    if k1 < n {
        let o2 = ops[k1 as int];
        let operands2 = values_of(o2.operands@);
        let op2 = encode_utf8(o2.operator@);
        let t2 = operation_text(operands2, o2.operator@);
        assert(forall|j: int| 0 <= j < operands2.len() ==> operands2[j] == o2.operands@[j]@);
        lemma_operations_text_prefix(ops, (k1 + 1) as nat, n);
        assert(operations_text(ops, (k1 + 1) as nat) == operations_text(ops, k1) + t2);
        lemma_word_prefix(s, 0, s, operations_text(ops, (k1 + 1) as nat).len() as int);
        lemma_word_split(s, 0, operations_text(ops, k1), t2);
        lemma_operation_text_first(operands2, op2);
        lemma_byte_at(s, next, t2, 0);
    }
    lemma_single_operation(s, p, operands, op);
}

/// The operations of a content stream as written read back from
/// operation `k` on.
pub proof fn lemma_read_operations(ops: Seq<Operation>, s: Seq<u8>, k: nat)
    requires
        s == operations_text(ops, ops.len()),
        content_writable(ops),
        k <= ops.len(),
    ensures
        spec_operations(s, operations_text(ops, k).len() as int) == operations_view(ops).subrange(k as int, ops.len() as int),
    decreases ops.len() - k,
{
    let n = ops.len();
    let p = operations_text(ops, k).len() as int;
    lemma_operations_text_prefix(ops, k, n);
    if k == n {
        assert(p == s.len());
        assert(comments_end(s, p) == p);
        assert(spec_operand_value(s, p) is None) by {
            lemma_first_byte(s, p);
            assert(digits_end(s, p) == p);
        }
        assert(operator_end(s, p) == p);
        assert(operations_view(ops).subrange(k as int, n as int) =~= Seq::<(Seq<u8>, Seq<PdfValue>)>::empty());
    } else {
        let k1 = (k + 1) as nat;
        lemma_operation_at(ops, s, k);
        lemma_operations_text_prefix(ops, k1, n);
        lemma_operations_text_prefix(ops, k, k1);
        let o = ops[k as int];
        assert(operations_text(ops, k1) == operations_text(ops, k) + operation_text(values_of(o.operands@), o.operator@));
        lemma_read_operations(ops, s, k1);
        let item = (encode_utf8(o.operator@), values_of(o.operands@));
        assert(operations_view(ops)[k as int] == item);
        assert(seq![item] + operations_view(ops).subrange(k1 as int, n as int)
            =~= operations_view(ops).subrange(k as int, n as int));
    }
}

pub proof fn lemma_operator_end_at(s: Seq<u8>, j: int, f: int)
    requires
        0 <= j <= f < s.len(),
        forall|i: int| j <= i < f ==> is_operator_char(s[i]),
        !is_operator_char(s[f]),
    ensures
        operator_end(s, j) == f,
    decreases f - j,
{
    if j < f {
        lemma_operator_end_at(s, j + 1, f);
    }
}

/// Reading back an encoded content stream: the operations that
/// `Content::encode` writes read back, operator and operands, as
/// `Content::decode` reads them, where each operator and operand can be
/// written so (see `content_writable`).
pub proof fn lemma_encoded_content_reads_back(ops: Seq<Operation>)
    requires
        content_writable(ops),
    ensures
        spec_content(operations_text(ops, ops.len())) == operations_view(ops),
{
    let s = operations_text(ops, ops.len());
    if ops.len() > 0 {
        let o = ops[0];
        let operands = values_of(o.operands@);
        assert(forall|j: int| 0 <= j < operands.len() ==> operands[j] == o.operands@[j]@);
        lemma_operations_text_prefix(ops, 1, ops.len());
        assert(operations_text(ops, 1) == operations_text(ops, 0) + operation_text(operands, o.operator@));
        lemma_operation_text_first(operands, encode_utf8(o.operator@));
        assert(s[0] == operations_text(ops, 1)[0]);
    }
    assert(content_space_end(s, 0) == 0);
    lemma_read_operations(ops, s, 0);
    assert(operations_view(ops).subrange(0, ops.len() as int) =~= operations_view(ops));
}

} // verus!

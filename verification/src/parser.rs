//! Reading objects and content streams in PDF syntax.
//!
//! Each parser takes the input and a position, and gives what it read with
//! the position after it, or nothing when the input does not start there
//! with what it reads.

use vstd::prelude::*;
use crate::object::{Object, PdfValue, StringFormat, Dictionary, entries_set, values_of, pairs_values, dict_pairs,
    lemma_array_value, lemma_dictionary_value, lemma_pairs_values_set};

verus! {

/// White-space characters: space, tab, line feed, carriage return, NUL and form feed.
pub open spec fn is_white(c: u8) -> bool {
    c == 32 || c == 9 || c == 10 || c == 13 || c == 0 || c == 12
}

/// Delimiter characters: `( ) < > [ ] { } / %`.
pub open spec fn is_delim(c: u8) -> bool {
    c == 40 || c == 41 || c == 60 || c == 62 || c == 91 || c == 93 || c == 123 || c == 125 || c == 47 || c == 37
}

/// Regular characters: neither white-space nor delimiters.
pub open spec fn is_reg(c: u8) -> bool {
    !is_white(c) && !is_delim(c)
}

/// Characters that stand for themselves in a literal string.
pub open spec fn is_direct_lit(c: u8) -> bool {
    !(c == 40 || c == 41 || c == 92 || c == 13 || c == 10)
}

pub open spec fn is_digit(c: u8) -> bool {
    48 <= c <= 57
}

pub open spec fn is_oct(c: u8) -> bool {
    48 <= c <= 55
}

pub open spec fn is_hex(c: u8) -> bool {
    (48 <= c <= 57) || (65 <= c <= 70) || (97 <= c <= 102)
}

/// The value of a hexadecimal digit.
pub open spec fn hex_value(c: u8) -> int {
    if 48 <= c <= 57 { c - 48 } else if 65 <= c <= 70 { c - 55 } else { c - 87 }
}

pub fn is_whitespace(c: u8) -> (r: bool)
    ensures
        r == is_white(c),
{
    c == 32 || c == 9 || c == 10 || c == 13 || c == 0 || c == 12
}

pub fn is_delimiter(c: u8) -> (r: bool)
    ensures
        r == is_delim(c),
{
    c == 40 || c == 41 || c == 60 || c == 62 || c == 91 || c == 93 || c == 123 || c == 125 || c == 47 || c == 37
}

pub fn is_regular(c: u8) -> (r: bool)
    ensures
        r == is_reg(c),
{
    !is_whitespace(c) && !is_delimiter(c)
}

pub fn is_direct_literal_string(c: u8) -> (r: bool)
    ensures
        r == is_direct_lit(c),
{
    !(c == 40 || c == 41 || c == 92 || c == 13 || c == 10)
}

/// The first position from `p` on that does not hold white-space.
pub open spec fn skip_white(s: Seq<u8>, p: int) -> int
    decreases s.len() - p,
{
    if 0 <= p < s.len() && is_white(s[p]) { skip_white(s, p + 1) } else { p }
}

/// The length of the end-of-line marker at `p`: CR LF, LF or CR.
pub open spec fn eol_len(s: Seq<u8>, p: int) -> Option<int> {
    if 0 <= p && p + 1 < s.len() && s[p] == 13 && s[p + 1] == 10 {
        Some(2)
    } else if 0 <= p < s.len() && (s[p] == 10 || s[p] == 13) {
        Some(1)
    } else {
        None
    }
}

/// The first position from `p` on that holds a CR or LF, or the end.
pub open spec fn line_end(s: Seq<u8>, p: int) -> int
    decreases s.len() - p,
{
    if 0 <= p < s.len() && s[p] != 13 && s[p] != 10 { line_end(s, p + 1) } else { p }
}

/// The position after a comment at `p`: `%`, the rest of the line, and its
/// end-of-line marker, which must be there.
pub open spec fn comment_end(s: Seq<u8>, p: int) -> Option<int> {
    if 0 <= p < s.len() && s[p] == 37 {
        let e = line_end(s, p + 1);
        match eol_len(s, e) {
            Some(n) => Some(e + n),
            None => None,
        }
    } else {
        None
    }
}

/// The position after any white-space and comments at `p`.
pub open spec fn space_end(s: Seq<u8>, p: int) -> int
    decreases s.len() - p,
{
    if 0 <= p < s.len() && is_white(s[p]) {
        space_end(s, p + 1)
    } else {
        match comment_end(s, p) {
            Some(q) => if p < q <= s.len() { space_end(s, q) } else { p },
            None => p,
        }
    }
}

pub proof fn lemma_skip_white(s: Seq<u8>, p: int)
    requires
        0 <= p <= s.len(),
    ensures
        p <= skip_white(s, p) <= s.len(),
        forall|i: int| p <= i < skip_white(s, p) ==> is_white(s[i]),
        skip_white(s, p) < s.len() ==> !is_white(s[skip_white(s, p)]),
    decreases s.len() - p,
{
    if p < s.len() && is_white(s[p]) {
        lemma_skip_white(s, p + 1);
    }
}

pub proof fn lemma_line_end(s: Seq<u8>, p: int)
    requires
        0 <= p <= s.len(),
    ensures
        p <= line_end(s, p) <= s.len(),
        line_end(s, p) < s.len() ==> (s[line_end(s, p)] == 13 || s[line_end(s, p)] == 10),
    decreases s.len() - p,
{
    if p < s.len() && s[p] != 13 && s[p] != 10 {
        lemma_line_end(s, p + 1);
    }
}

pub proof fn lemma_space_end(s: Seq<u8>, p: int)
    requires
        0 <= p <= s.len(),
    ensures
        p <= space_end(s, p) <= s.len(),
    decreases s.len() - p,
{
    if p < s.len() && is_white(s[p]) {
        lemma_space_end(s, p + 1);
    } else {
        match comment_end(s, p) {
            Some(q) => if p < q <= s.len() { lemma_space_end(s, q); },
            None => {},
        }
    }
}

pub fn skip_whitespace(s: &[u8], p: usize) -> (r: usize)
    requires
        p <= s@.len(),
    ensures
        r == skip_white(s@, p as int),
{
    let mut q = p;
    while q < s.len() && is_whitespace(s[q])
        invariant
            p <= q <= s@.len(),
            skip_white(s@, q as int) == skip_white(s@, p as int),
        decreases s@.len() - q,
    {
        q = q + 1;
    }
    q
}

pub fn eol(s: &[u8], p: usize) -> (r: Option<usize>)
    requires
        p <= s@.len(),
    ensures
        match eol_len(s@, p as int) {
            Some(n) => r == Some(n as usize),
            None => r is None,
        },
{
    if p < s.len() && s.len() - p >= 2 && s[p] == 13 && s[p + 1] == 10 {
        Some(2)
    } else if p < s.len() && (s[p] == 10 || s[p] == 13) {
        Some(1)
    } else {
        None
    }
}

/// Reads a comment at `p`; gives the position after it.
pub fn comment(s: &[u8], p: usize) -> (r: Option<usize>)
    requires
        p <= s@.len(),
    ensures
        match comment_end(s@, p as int) {
            Some(q) => r == Some(q as usize) && p < q <= s@.len(),
            None => r is None,
        },
{
    if p < s.len() && s[p] == 37 {
        let mut q = p + 1;
        while q < s.len() && s[q] != 13 && s[q] != 10
            invariant
                p < q <= s@.len(),
                line_end(s@, q as int) == line_end(s@, p + 1),
            decreases s@.len() - q,
        {
            q = q + 1;
        }
        match eol(s, q) {
            Some(n) => Some(q + n),
            None => None,
        }
    } else {
        None
    }
}

/// Skips white-space and comments at `p`.
pub fn space(s: &[u8], p: usize) -> (r: usize)
    requires
        p <= s@.len(),
    ensures
        r == space_end(s@, p as int),
        p <= r <= s@.len(),
{
    proof {
        lemma_space_end(s@, p as int);
    }
    let mut q = p;
    loop
        invariant
            p <= q <= s@.len(),
            space_end(s@, q as int) == space_end(s@, p as int),
        decreases s@.len() - q,
    {
        if q < s.len() && is_whitespace(s[q]) {
            q = q + 1;
        } else {
            match comment(s, q) {
                Some(e) => {
                    q = e;
                },
                None => {
                    return q;
                },
            }
        }
    }
}


/// The first position from `p` on that does not hold a decimal digit.
pub open spec fn digits_end(s: Seq<u8>, p: int) -> int
    decreases s.len() - p,
{
    if 0 <= p < s.len() && is_digit(s[p]) { digits_end(s, p + 1) } else { p }
}

/// The value of the decimal digits `s[a..b]`.
pub open spec fn digits_value(s: Seq<u8>, a: int, b: int) -> nat
    decreases b - a,
{
    if b <= a { 0 } else { digits_value(s, a, b - 1) * 10 + (s[b - 1] - 48) as nat }
}

pub proof fn lemma_digits_end(s: Seq<u8>, p: int)
    requires
        0 <= p <= s.len(),
    ensures
        p <= digits_end(s, p) <= s.len(),
        forall|i: int| p <= i < digits_end(s, p) ==> is_digit(s[i]),
        digits_end(s, p) < s.len() ==> !is_digit(s[digits_end(s, p)]),
    decreases s.len() - p,
{
    if p < s.len() && is_digit(s[p]) {
        lemma_digits_end(s, p + 1);
    }
}

/// Where the digits of a number start: after its sign, if any.
pub open spec fn after_sign(s: Seq<u8>, p: int) -> int {
    if 0 <= p < s.len() && (s[p] == 43 || s[p] == 45) { p + 1 } else { p }
}

/// An integer at `p`: an optional sign and at least one digit, whose value
/// fits in 64 bits.
pub open spec fn spec_integer(s: Seq<u8>, p: int) -> Option<(i64, int)> {
    let q = after_sign(s, p);
    let e = digits_end(s, q);
    if e == q {
        None
    } else {
        let v: int = if q > p && s[p] == 45 { -digits_value(s, q, e) } else { digits_value(s, q, e) as int };
        if i64::MIN <= v <= i64::MAX { Some((v as i64, e)) } else { None }
    }
}

/// An unsigned integer at `p` of at least one digit, if its value is at most `max`.
pub open spec fn spec_unsigned(s: Seq<u8>, p: int, max: nat) -> Option<(nat, int)> {
    let e = digits_end(s, p);
    if e == p || digits_value(s, p, e) > max { None } else { Some((digits_value(s, p, e), e)) }
}

/// Reads decimal digits from `p` on: gives the position after them and
/// their value, or `None` for the value when it is above `max`.
fn read_digits(s: &[u8], p: usize, max: u64) -> (r: (usize, Option<u64>))
    requires
        p <= s@.len(),
    ensures
        r.0 == digits_end(s@, p as int),
        match r.1 {
            Some(v) => v == digits_value(s@, p as int, r.0 as int) && v <= max,
            None => digits_value(s@, p as int, r.0 as int) > max,
        },
{
    proof {
        lemma_digits_end(s@, p as int);
    }
    let mut q = p;
    let mut acc: u64 = 0;
    let mut over = false;
    while q < s.len() && 48 <= s[q] && s[q] <= 57
        invariant
            p <= q <= s@.len(),
            digits_end(s@, q as int) == digits_end(s@, p as int),
            over ==> digits_value(s@, p as int, q as int) > max,
            !over ==> acc == digits_value(s@, p as int, q as int) && acc <= max,
        decreases s@.len() - q,
    {
        let d = (s[q] - 48) as u64;
        proof {
            assert(digits_value(s@, p as int, q + 1) == digits_value(s@, p as int, q as int) * 10 + d);
        }
        if !over {
            if d > max || acc > (max - d) / 10 {
                over = true;
                assert(acc * 10 + d > max) by (nonlinear_arith)
                    requires
                        d > max || acc > (max - d) / 10,
                ;
            } else {
                assert(acc * 10 + d <= max) by (nonlinear_arith)
                    requires
                        d <= max,
                        acc <= (max - d) / 10,
                ;
                acc = acc * 10 + d;
            }
        } else {
            assert(digits_value(s@, p as int, q + 1) >= digits_value(s@, p as int, q as int)) by (nonlinear_arith)
                requires
                    digits_value(s@, p as int, q + 1) == digits_value(s@, p as int, q as int) * 10 + d,
            ;
        }
        q = q + 1;
    }
    (q, if over { None } else { Some(acc) })
}


/// Reads an integer at `p`.
pub fn integer(s: &[u8], p: usize) -> (r: Option<(i64, usize)>)
    requires
        p <= s@.len(),
    ensures
        match spec_integer(s@, p as int) {
            Some((v, e)) => r == Some((v, e as usize)) && p < e <= s@.len(),
            None => r is None,
        },
{
    let neg = p < s.len() && s[p] == 45;
    let q = if p < s.len() && (s[p] == 43 || s[p] == 45) { p + 1 } else { p };
    let max: u64 = if neg { 9223372036854775808u64 } else { 9223372036854775807u64 };
    proof {
        lemma_digits_end(s@, q as int);
    }
    let (e, v) = read_digits(s, q, max);
    if e == q {
        return None;
    }
    match v {
        Some(m) => {
            if neg {
                let value: i64 = if m == 9223372036854775808u64 { i64::MIN } else { -(m as i64) };
                Some((value, e))
            } else {
                Some((m as i64, e))
            }
        },
        None => None,
    }
}

/// Reads an unsigned integer at `p` no greater than `max`.
pub fn unsigned_int(s: &[u8], p: usize, max: u64) -> (r: Option<(u64, usize)>)
    requires
        p <= s@.len(),
    ensures
        match spec_unsigned(s@, p as int, max as nat) {
            Some((v, e)) => r == Some((v as u64, e as usize)),
            None => r is None,
        },
{
    let (e, v) = read_digits(s, p, max);
    if e == p {
        return None;
    }
    match v {
        Some(m) => Some((m, e)),
        None => None,
    }
}

/// Where a real number at `p` ends: an optional sign, then digits, a period
/// and maybe more digits, or a period and at least one digit.
pub open spec fn spec_real_end(s: Seq<u8>, p: int) -> Option<int> {
    let q = after_sign(s, p);
    let d = digits_end(s, q);
    if d > q {
        if d < s.len() && s[d] == 46 { Some(digits_end(s, d + 1)) } else { None }
    } else if 0 <= q < s.len() && s[q] == 46 {
        let e = digits_end(s, q + 1);
        if e > q + 1 { Some(e) } else { None }
    } else {
        None
    }
}

/// A real number at `p`: the bytes that write it.
pub open spec fn spec_real(s: Seq<u8>, p: int) -> Option<(Seq<u8>, int)> {
    match spec_real_end(s, p) {
        Some(e) => Some((s.subrange(p, e), e)),
        None => None,
    }
}

fn digits_end_exec(s: &[u8], p: usize) -> (r: usize)
    requires
        p <= s@.len(),
    ensures
        r == digits_end(s@, p as int),
        p <= r <= s@.len(),
{
    proof {
        lemma_digits_end(s@, p as int);
    }
    let mut q = p;
    while q < s.len() && 48 <= s[q] && s[q] <= 57
        invariant
            p <= q <= s@.len(),
            digits_end(s@, q as int) == digits_end(s@, p as int),
        decreases s@.len() - q,
    {
        q = q + 1;
    }
    q
}

/// A copy of `s[a..b]`.
pub fn copy_range(s: &[u8], a: usize, b: usize) -> (r: Vec<u8>)
    requires
        a <= b <= s@.len(),
    ensures
        r@ == s@.subrange(a as int, b as int),
{
    let mut out: Vec<u8> = Vec::new();
    let mut i = a;
    while i < b
        invariant
            a <= i <= b <= s@.len(),
            out@ == s@.subrange(a as int, i as int),
        decreases b - i,
    {
        out.push(s[i]);
        i = i + 1;
        assert(out@ =~= s@.subrange(a as int, i as int));
    }
    out
}

/// Reads a real number at `p`; gives the bytes that write it.
pub fn real_number(s: &[u8], p: usize) -> (r: Option<(Vec<u8>, usize)>)
    requires
        p <= s@.len(),
    ensures
        match spec_real(s@, p as int) {
            Some((v, e)) => r matches Some((d, e2)) && d@ == v && e2 == e && p < e <= s@.len(),
            None => r is None,
        },
{
    let q = if p < s.len() && (s[p] == 43 || s[p] == 45) { p + 1 } else { p };
    let d = digits_end_exec(s, q);
    let e = if d > q {
        if d < s.len() && s[d] == 46 {
            digits_end_exec(s, d + 1)
        } else {
            return None;
        }
    } else if q < s.len() && s[q] == 46 {
        let e = digits_end_exec(s, q + 1);
        if e > q + 1 { e } else { return None; }
    } else {
        return None;
    };
    Some((copy_range(s, p, e), e))
}

/// The bytes of a name after its solidus from `q` on: each regular character
/// other than `#` stands for itself, `#` and two hexadecimal digits for the
/// byte they give; gives the bytes and the position where the name ends.
pub open spec fn name_chars(s: Seq<u8>, q: int) -> (Seq<u8>, int)
    decreases s.len() - q,
{
    if 0 <= q && q + 2 < s.len() && s[q] == 35 && is_hex(s[q + 1]) && is_hex(s[q + 2]) {
        let (rest, e) = name_chars(s, q + 3);
        (seq![(hex_value(s[q + 1]) * 16 + hex_value(s[q + 2])) as u8] + rest, e)
    } else if 0 <= q < s.len() && s[q] != 35 && is_reg(s[q]) {
        let (rest, e) = name_chars(s, q + 1);
        (seq![s[q]] + rest, e)
    } else {
        (Seq::empty(), q)
    }
}

/// A name at `p`: a solidus and the name's characters.
pub open spec fn spec_name(s: Seq<u8>, p: int) -> Option<(Seq<u8>, int)> {
    if 0 <= p < s.len() && s[p] == 47 { Some(name_chars(s, p + 1)) } else { None }
}

pub proof fn lemma_name_chars(s: Seq<u8>, q: int)
    requires
        0 <= q <= s.len(),
    ensures
        q <= name_chars(s, q).1 <= s.len(),
    decreases s.len() - q,
{
    if q + 2 < s.len() && s[q] == 35 && is_hex(s[q + 1]) && is_hex(s[q + 2]) {
        lemma_name_chars(s, q + 3);
    } else if q < s.len() && s[q] != 35 && is_reg(s[q]) {
        lemma_name_chars(s, q + 1);
    }
}

fn hex_digit_value(c: u8) -> (r: Option<u8>)
    ensures
        match r {
            Some(v) => is_hex(c) && v == hex_value(c),
            None => !is_hex(c),
        },
{
    if 48 <= c && c <= 57 {
        Some(c - 48)
    } else if 65 <= c && c <= 70 {
        Some(c - 55)
    } else if 97 <= c && c <= 102 {
        Some(c - 87)
    } else {
        None
    }
}

/// Reads a name at `p`.
pub fn name(s: &[u8], p: usize) -> (r: Option<(Vec<u8>, usize)>)
    requires
        p <= s@.len(),
    ensures
        match spec_name(s@, p as int) {
            Some((v, e)) => r matches Some((n, e2)) && n@ == v && e2 == e && p < e <= s@.len(),
            None => r is None,
        },
{
    if !(p < s.len() && s[p] == 47) {
        return None;
    }
    proof {
        lemma_name_chars(s@, p + 1);
    }
    let mut out: Vec<u8> = Vec::new();
    let mut q = p + 1;
    loop
        invariant
            p < q <= s@.len(),
            s@[p as int] == 47,
            name_chars(s@, p + 1) == (out@ + name_chars(s@, q as int).0, name_chars(s@, q as int).1),
        decreases s@.len() - q,
    {
        let ghost old_out = out@;
        if q < s.len() && s.len() - q > 2 && s[q] == 35 {
            match (hex_digit_value(s[q + 1]), hex_digit_value(s[q + 2])) {
                (Some(h), Some(l)) => {
                    out.push(h * 16 + l);
                    q = q + 3;
                    assert(old_out + name_chars(s@, q - 3).0 =~= out@ + name_chars(s@, q as int).0);
                    continue;
                },
                _ => {},
            }
        }
        if q < s.len() && s[q] != 35 && is_regular(s[q]) {
            out.push(s[q]);
            q = q + 1;
            assert(old_out + name_chars(s@, q - 1).0 =~= out@ + name_chars(s@, q as int).0);
        } else {
            assert(name_chars(s@, q as int) == (Seq::<u8>::empty(), q as int));
            assert(out@ + name_chars(s@, q as int).0 =~= out@);
            return Some((out, q));
        }
    }
}

/// Whether `s` holds `word` at `p`.
pub open spec fn has_word(s: Seq<u8>, p: int, word: Seq<u8>) -> bool {
    0 <= p && p + word.len() <= s.len() && s.subrange(p, p + word.len()) == word
}

/// Whether `s` holds `word` at `p`.
pub fn tag(s: &[u8], p: usize, word: &[u8]) -> (r: bool)
    requires
        p <= s@.len(),
    ensures
        r == has_word(s@, p as int, word@),
{
    if s.len() - p < word.len() {
        return false;
    }
    let mut i: usize = 0;
    while i < word.len()
        invariant
            p + word@.len() <= s@.len(),
            s@.len() == s.len(),
            i <= word@.len(),
            forall|j: int| 0 <= j < i ==> s@[p + j] == word@[j],
        decreases word@.len() - i,
    {
        if s[p + i] != word[i] {
            assert(s@.subrange(p as int, p + word@.len())[i as int] != word@[i as int]);
            return false;
        }
        i = i + 1;
    }
    assert(s@.subrange(p as int, p + word@.len()) =~= word@);
    true
}


/// How many octal digits, at most three, stand from `q` on.
pub open spec fn oct_count(s: Seq<u8>, q: int) -> int {
    if !(0 <= q < s.len() && is_oct(s[q])) {
        0
    } else if !(q + 1 < s.len() && is_oct(s[q + 1])) {
        1
    } else if !(q + 2 < s.len() && is_oct(s[q + 2])) {
        2
    } else {
        3
    }
}

/// The value of the octal digits `s[a..b]`.
pub open spec fn oct_value(s: Seq<u8>, a: int, b: int) -> nat
    decreases b - a,
{
    if b <= a { 0 } else { oct_value(s, a, b - 1) * 8 + (s[b - 1] - 48) as nat }
}

/// An escape sequence of a literal string at `q`, which holds a backslash:
/// the bytes it stands for and the position after it.
pub open spec fn spec_escape(s: Seq<u8>, q: int) -> Option<(Seq<u8>, int)> {
    if !(0 <= q && q + 1 < s.len()) {
        None
    } else {
        let c = s[q + 1];
        if is_oct(c) {
            let m = oct_count(s, q + 1);
            Some((seq![(oct_value(s, q + 1, q + 1 + m) % 256) as u8], q + 1 + m))
        } else {
            match eol_len(s, q + 1) {
                Some(n) => Some((Seq::empty(), q + 1 + n)),
                None => Some((seq![
                    if c == 110 { 10u8 } else if c == 114 { 13u8 } else if c == 116 { 9u8 } else if c == 98 { 8u8 } else if c == 102 { 12u8 } else { c }
                ], q + 2)),
            }
        }
    }
}

/// The byte that a backslash followed by `c` stands for in a literal
/// string, for the escapes of one character: `\n` line feed, `\r` carriage
/// return, `\t` tab, `\b` backspace, `\f` form feed, and the escaped
/// parentheses and backslash.
pub open spec fn escape_byte(c: u8) -> Option<u8> {
    if c == 0x6E { Some(0x0Au8) }
    else if c == 0x72 { Some(0x0Du8) }
    else if c == 0x74 { Some(0x09u8) }
    else if c == 0x62 { Some(0x08u8) }
    else if c == 0x66 { Some(0x0Cu8) }
    else if c == 0x28 { Some(0x28u8) }
    else if c == 0x29 { Some(0x29u8) }
    else if c == 0x5C { Some(0x5Cu8) }
    else { None }
}

/// In a literal string, a backslash followed by one of `n r t b f ( ) \`
/// stands for the one byte of the table `escape_byte`, and the string goes
/// on after the two: reading from the backslash gives that byte followed by
/// what reading after the escape gives.
pub proof fn lemma_escape_table(s: Seq<u8>, q: int, depth: nat)
    requires
        0 <= q,
        q + 1 < s.len(),
        s[q] == 0x5C,
        escape_byte(s[q + 1]) is Some,
    ensures
        spec_escape(s, q) == Some((seq![escape_byte(s[q + 1])->0], q + 2)),
        lit_scan(s, q, depth) == match lit_scan(s, q + 2, depth) {
            Some((r, e)) => Some((seq![escape_byte(s[q + 1])->0] + r, e)),
            None => None::<(Seq<u8>, int)>,
        },
{
    assert(!is_oct(s[q + 1]));
    assert(eol_len(s, q + 1) is None);
}

/// The deepest nesting of parentheses that a literal string may hold.
pub const MAX_BRACKET: usize = 100;

/// The rest of a literal string from `q` on, `depth` parentheses deep: the
/// bytes it stands for and the position after its closing parenthesis.
pub open spec fn lit_scan(s: Seq<u8>, q: int, depth: nat) -> Option<(Seq<u8>, int)>
    decreases s.len() - q,
{
    if !(0 <= q < s.len()) {
        None
    } else {
        let c = s[q];
        if is_direct_lit(c) {
            match lit_scan(s, q + 1, depth) {
                Some((r, e)) => Some((seq![c] + r, e)),
                None => None,
            }
        } else if c == 92 {
            match spec_escape(s, q) {
                Some((out, q2)) => if q2 > q {
                    match lit_scan(s, q2, depth) {
                        Some((r, e)) => Some((out + r, e)),
                        None => None,
                    }
                } else {
                    None
                },
                None => None,
            }
        } else if c == 13 || c == 10 {
            let n: int = if q + 1 < s.len() && c == 13 && s[q + 1] == 10 { 2 } else { 1 };
            match lit_scan(s, q + n, depth) {
                Some((r, e)) => Some((s.subrange(q, q + n) + r, e)),
                None => None,
            }
        } else if c == 40 {
            if depth < MAX_BRACKET {
                match lit_scan(s, q + 1, depth + 1) {
                    Some((r, e)) => Some((seq![40u8] + r, e)),
                    None => None,
                }
            } else {
                None
            }
        } else {
            // a closing parenthesis
            if depth == 0 {
                Some((Seq::empty(), q + 1))
            } else {
                match lit_scan(s, q + 1, (depth - 1) as nat) {
                    Some((r, e)) => Some((seq![41u8] + r, e)),
                    None => None,
                }
            }
        }
    }
}

/// A literal string at `p`: the bytes it stands for.
pub open spec fn spec_literal_string(s: Seq<u8>, p: int) -> Option<(Seq<u8>, int)> {
    if 0 <= p < s.len() && s[p] == 40 { lit_scan(s, p + 1, 0) } else { None }
}

pub proof fn lemma_lit_scan_end(s: Seq<u8>, q: int, depth: nat)
    requires
        0 <= q,
    ensures
        lit_scan(s, q, depth) matches Some((r, e)) ==> q < e <= s.len(),
    decreases s.len() - q,
{
    if 0 <= q < s.len() {
        let c = s[q];
        if is_direct_lit(c) {
            lemma_lit_scan_end(s, q + 1, depth);
        } else if c == 92 {
            match spec_escape(s, q) {
                Some((out, q2)) => if q2 > q { lemma_lit_scan_end(s, q2, depth); },
                None => {},
            }
        } else if c == 13 || c == 10 {
            let n: int = if q + 1 < s.len() && c == 13 && s[q + 1] == 10 { 2 } else { 1 };
            lemma_lit_scan_end(s, q + n, depth);
        } else if c == 40 {
            if depth < MAX_BRACKET {
                lemma_lit_scan_end(s, q + 1, depth + 1);
            }
        } else if depth > 0 {
            lemma_lit_scan_end(s, q + 1, (depth - 1) as nat);
        }
    }
}

/// Reads an escape sequence at `q`, which holds a backslash.
fn escape_sequence(s: &[u8], q: usize) -> (r: Option<(Vec<u8>, usize)>)
    requires
        q < s@.len(),
        s@[q as int] == 92,
    ensures
        match spec_escape(s@, q as int) {
            Some((out, q2)) => r matches Some((o, q3)) && o@ == out && q3 == q2 && q2 <= s@.len(),
            None => r is None,
        },
{
    if s.len() - q < 2 {
        return None;
    }
    let c = s[q + 1];
    let mut out: Vec<u8> = Vec::new();
    if 48 <= c && c <= 55 {
        let mut m: usize = 1;
        let mut v: u64 = (c - 48) as u64;
        if s.len() - q > 2 && 48 <= s[q + 2] && s[q + 2] <= 55 {
            m = 2;
            v = v * 8 + (s[q + 2] - 48) as u64;
            if s.len() - q > 3 && 48 <= s[q + 3] && s[q + 3] <= 55 {
                m = 3;
                v = v * 8 + (s[q + 3] - 48) as u64;
            }
        }
        proof {
            reveal_with_fuel(oct_value, 4);
        }
        out.push((v % 256) as u8);
        assert(out@ =~= seq![(oct_value(s@, q + 1, q + 1 + m) % 256) as u8]);
        Some((out, q + 1 + m))
    } else {
        match eol(s, q + 1) {
            Some(n) => Some((out, q + 1 + n)),
            None => {
                let b = if c == 110 { 10u8 } else if c == 114 { 13u8 } else if c == 116 { 9u8 } else if c == 98 { 8u8 } else if c == 102 { 12u8 } else { c };
                out.push(b);
                assert(out@ =~= seq![b]);
                Some((out, q + 2))
            },
        }
    }
}

/// Reads a literal string at `p`; gives the bytes it stands for.
pub fn literal_string(s: &[u8], p: usize) -> (r: Option<(Vec<u8>, usize)>)
    requires
        p <= s@.len(),
    ensures
        match spec_literal_string(s@, p as int) {
            Some((v, e)) => r matches Some((t, e2)) && t@ == v && e2 == e && p < e <= s@.len(),
            None => r is None,
        },
{
    if !(p < s.len() && s[p] == 40) {
        return None;
    }
    let mut out: Vec<u8> = Vec::new();
    let mut q = p + 1;
    let mut depth: usize = 0;
    loop
        invariant
            p < q <= s@.len(),
            depth <= MAX_BRACKET,
            s@[p as int] == 40,
            spec_literal_string(s@, p as int) == match lit_scan(s@, q as int, depth as nat) {
                Some((r, e)) => Some((out@ + r, e)),
                None => None::<(Seq<u8>, int)>,
            },
        decreases s@.len() - q,
    {
        let ghost old_out = out@;
        let ghost old_q = q as int;
        let ghost old_depth = depth as nat;
        if q >= s.len() {
            return None;
        }
        let c = s[q];
        if is_direct_literal_string(c) {
            out.push(c);
            q = q + 1;
            proof {
                match lit_scan(s@, q as int, depth as nat) {
                    Some((r, e)) => { assert(old_out + (seq![c] + r) =~= out@ + r); },
                    None => {},
                }
            }
        } else if c == 92 {
            match escape_sequence(s, q) {
                Some((esc, q2)) => {
                    let ghost e = esc@;
                    let mut k: usize = 0;
                    while k < esc.len()
                        invariant
                            k <= esc@.len(),
                            e == esc@,
                            out@ == old_out + esc@.subrange(0, k as int),
                        decreases esc@.len() - k,
                    {
                        out.push(esc[k]);
                        k = k + 1;
                        assert(out@ =~= old_out + esc@.subrange(0, k as int));
                    }
                    assert(esc@.subrange(0, k as int) =~= esc@);
                    q = q2;
                    proof {
                        match lit_scan(s@, q as int, depth as nat) {
                            Some((r, e2)) => { assert(old_out + (e + r) =~= out@ + r); },
                            None => {},
                        }
                    }
                },
                None => {
                    return None;
                },
            }
        } else if c == 13 || c == 10 {
            let n: usize = if s.len() - q > 1 && c == 13 && s[q + 1] == 10 { 2 } else { 1 };
            out.push(c);
            if n == 2 {
                out.push(10u8);
            }
            q = q + n;
            proof {
                assert(out@ =~= old_out + s@.subrange(old_q, old_q + n));
                match lit_scan(s@, q as int, depth as nat) {
                    Some((r, e)) => { assert(old_out + (s@.subrange(old_q, old_q + n) + r) =~= out@ + r); },
                    None => {},
                }
            }
        } else if c == 40 {
            if depth < MAX_BRACKET {
                out.push(40u8);
                q = q + 1;
                depth = depth + 1;
                proof {
                    match lit_scan(s@, q as int, depth as nat) {
                        Some((r, e)) => { assert(old_out + (seq![40u8] + r) =~= out@ + r); },
                        None => {},
                    }
                }
            } else {
                return None;
            }
        } else {
            if depth == 0 {
                assert(out@ + Seq::<u8>::empty() =~= out@);
                return Some((out, q + 1));
            }
            out.push(41u8);
            q = q + 1;
            depth = depth - 1;
            proof {
                match lit_scan(s@, q as int, depth as nat) {
                    Some((r, e)) => { assert(old_out + (seq![41u8] + r) =~= out@ + r); },
                    None => {},
                }
            }
        }
    }
}


/// The hexadecimal digits from `q` on, each after any white-space: their
/// values, and the position after the last of them.
pub open spec fn hex_nibbles(s: Seq<u8>, q: int) -> (Seq<int>, int)
    decreases s.len() - q,
{
    let q2 = skip_white(s, q);
    if 0 <= q && q <= q2 < s.len() && is_hex(s[q2]) {
        let (rest, e) = hex_nibbles(s, q2 + 1);
        (seq![hex_value(s[q2])] + rest, e)
    } else {
        (Seq::empty(), q)
    }
}

/// Bytes from hexadecimal digits, two to a byte; a last odd digit is the
/// high half of a byte.
pub open spec fn pack_nibbles(n: Seq<int>) -> Seq<u8>
    decreases n.len(),
{
    if n.len() == 0 {
        Seq::empty()
    } else if n.len() == 1 {
        seq![(n[0] * 16) as u8]
    } else {
        seq![(n[0] * 16 + n[1]) as u8] + pack_nibbles(n.subrange(2, n.len() as int))
    }
}

/// A hexadecimal string at `p`: the bytes it stands for.
pub open spec fn spec_hex_string(s: Seq<u8>, p: int) -> Option<(Seq<u8>, int)> {
    if 0 <= p < s.len() && s[p] == 60 {
        let (nibbles, e) = hex_nibbles(s, p + 1);
        let e2 = skip_white(s, e);
        if 0 <= e2 < s.len() && s[e2] == 62 { Some((pack_nibbles(nibbles), e2 + 1)) } else { None }
    } else {
        None
    }
}

pub proof fn lemma_hex_nibbles(s: Seq<u8>, q: int)
    requires
        0 <= q <= s.len(),
    ensures
        q <= hex_nibbles(s, q).1 <= s.len(),
        forall|i: int| 0 <= i < hex_nibbles(s, q).0.len() ==> 0 <= #[trigger] hex_nibbles(s, q).0[i] < 16,
    decreases s.len() - q,
{
    lemma_skip_white(s, q);
    let q2 = skip_white(s, q);
    if q <= q2 < s.len() && is_hex(s[q2]) {
        lemma_hex_nibbles(s, q2 + 1);
    }
}

proof fn lemma_pack_push(n: Seq<int>, a: int, b: int)
    requires
        n.len() % 2 == 0,
    ensures
        pack_nibbles(n.push(a).push(b)) == pack_nibbles(n) + seq![(a * 16 + b) as u8],
        pack_nibbles(n.push(a)) == pack_nibbles(n) + seq![(a * 16) as u8],
    decreases n.len(),
{
    if n.len() == 0 {
        let n2 = n.push(a).push(b);
        assert(n2.len() == 2 && n2[0] == a && n2[1] == b);
        assert(n2.subrange(2, n2.len() as int) =~= Seq::<int>::empty());
        assert(pack_nibbles(Seq::<int>::empty()) == Seq::<u8>::empty());
        assert(pack_nibbles(n2) == seq![(a * 16 + b) as u8] + pack_nibbles(n2.subrange(2, n2.len() as int)));
        assert(pack_nibbles(n2) =~= pack_nibbles(n) + seq![(a * 16 + b) as u8]);
        let n1 = n.push(a);
        assert(n1.len() == 1 && n1[0] == a);
        assert(pack_nibbles(n1) =~= pack_nibbles(n) + seq![(a * 16) as u8]);
    } else {
        let t = n.subrange(2, n.len() as int);
        lemma_pack_push(t, a, b);
        assert(n.push(a).push(b).subrange(2, n.len() + 2 as int) =~= t.push(a).push(b));
        assert(n.push(a).subrange(2, n.len() + 1 as int) =~= t.push(a));
        assert(pack_nibbles(n.push(a).push(b)) =~= pack_nibbles(n) + seq![(a * 16 + b) as u8]);
        assert(pack_nibbles(n.push(a)) =~= pack_nibbles(n) + seq![(a * 16) as u8]);
    }
}

/// Reads a hexadecimal string at `p`; gives the bytes it stands for.
pub fn hexadecimal_string(s: &[u8], p: usize) -> (r: Option<(Vec<u8>, usize)>)
    requires
        p <= s@.len(),
    ensures
        match spec_hex_string(s@, p as int) {
            Some((v, e)) => r matches Some((t, e2)) && t@ == v && e2 == e && p < e <= s@.len(),
            None => r is None,
        },
{
    if !(p < s.len() && s[p] == 60) {
        return None;
    }
    proof {
        lemma_hex_nibbles(s@, p + 1);
    }
    let mut out: Vec<u8> = Vec::new();
    let mut half = false;
    let mut q = p + 1;
    let ghost mut seen: Seq<int> = Seq::empty();
    loop
        invariant
            p < q <= s@.len(),
            s@[p as int] == 60,
            hex_nibbles(s@, p + 1) == (seen + hex_nibbles(s@, q as int).0, hex_nibbles(s@, q as int).1),
            out@ == pack_nibbles(seen),
            half == (seen.len() % 2 == 1),
            half ==> out@.len() > 0 && out@.last() == (seen.last() * 16) as u8 && 0 <= seen.last() < 16,
            !half ==> seen.len() % 2 == 0,
        decreases s@.len() - q,
    {
        proof {
            lemma_hex_nibbles(s@, q as int);
            lemma_skip_white(s@, q as int);
        }
        let q2 = skip_whitespace(s, q);
        let d = if q2 < s.len() { hex_digit_value(s[q2]) } else { None };
        match d {
            Some(v) => {
                proof {
                    assert(hex_nibbles(s@, q as int).0 =~= seq![v as int] + hex_nibbles(s@, q2 + 1).0);
                }
                let ghost old_seen = seen;
                let ghost old_out = out@;
                if half {
                    let last = out.len() - 1;
                    let hi = out[last];
                    out.set(last, hi | v);
                    proof {
                        let a = old_seen.last();
                        let base = old_seen.drop_last();
                        assert(base.push(a) =~= old_seen);
                        lemma_pack_push(base, a, v as int);
                        assert(hi == a * 16);
                        assert(hi % 16 == 0);
                        assert(hi | v == hi + v) by (bit_vector)
                            requires
                                hi % 16 == 0,
                                v < 16,
                        ;
                    }
                    half = false;
                } else {
                    out.push(v * 16);
                    proof {
                        lemma_pack_push(old_seen, v as int, 0);
                    }
                    half = true;
                }
                proof {
                    seen = old_seen.push(v as int);
                    assert(old_seen + hex_nibbles(s@, q as int).0 =~= seen + hex_nibbles(s@, q2 + 1).0);
                    assert(out@ =~= pack_nibbles(seen));
                }
                q = q2 + 1;
            },
            None => {
                assert(hex_nibbles(s@, q as int) == (Seq::<int>::empty(), q as int));
                assert(seen + hex_nibbles(s@, q as int).0 =~= seen);
                if q2 < s.len() && s[q2] == 62 {
                    return Some((out, q2 + 1));
                }
                return None;
            },
        }
    }
}


pub open spec fn null_word() -> Seq<u8> { seq![110u8, 117, 108, 108] }

pub open spec fn true_word() -> Seq<u8> { seq![116u8, 114, 117, 101] }

pub open spec fn false_word() -> Seq<u8> { seq![102u8, 97, 108, 115, 101] }

/// A reference at `p`: an object number, space, a generation number, space and `R`.
pub open spec fn spec_reference(s: Seq<u8>, p: int) -> Option<(u32, u16, int)> {
    match spec_unsigned(s, p, u32::MAX as nat) {
        Some((id, e1)) => {
            let q1 = space_end(s, e1);
            match spec_unsigned(s, q1, u16::MAX as nat) {
                Some((generation, e2)) => {
                    let q2 = space_end(s, e2);
                    if 0 <= q2 < s.len() && s[q2] == 82 { Some((id as u32, generation as u16, q2 + 1)) } else { None }
                },
                None => None,
            }
        },
        None => None,
    }
}

/// A direct object at `p`, without the white-space after it. The kinds are
/// tried in this order: null, booleans, references, reals, integers, names,
/// literal strings, hexadecimal strings, arrays and dictionaries.
pub open spec fn spec_direct_objects(s: Seq<u8>, p: int) -> Option<(PdfValue, int)>
    decreases s.len() - p, 1nat,
{
    if !(0 <= p <= s.len()) {
        None
    } else if has_word(s, p, null_word()) {
        Some((PdfValue::Null, p + 4))
    } else if has_word(s, p, true_word()) {
        Some((PdfValue::Boolean(true), p + 4))
    } else if has_word(s, p, false_word()) {
        Some((PdfValue::Boolean(false), p + 5))
    } else if let Some((id, generation, e)) = spec_reference(s, p) {
        Some((PdfValue::Reference(id, generation), e))
    } else if let Some((digits, e)) = spec_real(s, p) {
        Some((PdfValue::Real(digits), e))
    } else if let Some((v, e)) = spec_integer(s, p) {
        Some((PdfValue::Integer(v), e))
    } else if let Some((n, e)) = spec_name(s, p) {
        Some((PdfValue::Name(n), e))
    } else if let Some((t, e)) = spec_literal_string(s, p) {
        Some((PdfValue::Str(t, StringFormat::Literal), e))
    } else if let Some((t, e)) = spec_hex_string(s, p) {
        Some((PdfValue::Str(t, StringFormat::Hexadecimal), e))
    } else if p < s.len() && s[p] == 91 {
        proof { lemma_space_end(s, p + 1); }
        let (items, e) = spec_array_items(s, space_end(s, p + 1));
        if 0 <= e < s.len() && s[e] == 93 { Some((PdfValue::Array(items), e + 1)) } else { None }
    } else if p + 1 < s.len() && s[p] == 60 && s[p + 1] == 60 {
        proof { lemma_space_end(s, p + 2); }
        let (entries, e) = spec_dict_entries(s, space_end(s, p + 2), Seq::empty());
        if 0 <= e && e + 1 < s.len() && s[e] == 62 && s[e + 1] == 62 {
            Some((PdfValue::Dictionary(entries), e + 2))
        } else {
            None
        }
    } else {
        None
    }
}

/// A direct object at `p` and the white-space and comments after it.
pub open spec fn spec_direct_object(s: Seq<u8>, p: int) -> Option<(PdfValue, int)>
    decreases s.len() - p, 2nat,
{
    match spec_direct_objects(s, p) {
        Some((v, e)) => Some((v, space_end(s, e))),
        None => None,
    }
}

/// The elements of an array from `q` on, and where they end.
pub open spec fn spec_array_items(s: Seq<u8>, q: int) -> (Seq<PdfValue>, int)
    decreases s.len() - q, 3nat,
{
    match spec_direct_object(s, q) {
        Some((v, e)) => if q < e <= s.len() {
            let (rest, e2) = spec_array_items(s, e);
            (seq![v] + rest, e2)
        } else {
            (Seq::empty(), q)
        },
        None => (Seq::empty(), q),
    }
}

/// The entries of a dictionary from `q` on, each a name, space and a direct
/// object, set in turn on `acc`; and where they end.
pub open spec fn spec_dict_entries(s: Seq<u8>, q: int, acc: Seq<(Seq<u8>, PdfValue)>) -> (Seq<(Seq<u8>, PdfValue)>, int)
    decreases s.len() - q, 3nat,
{
    match spec_name(s, q) {
        Some((key, e1)) => if q < e1 <= s.len() {
            proof { lemma_space_end(s, e1); }
            match spec_direct_object(s, space_end(s, e1)) {
                Some((v, e2)) => if q < e2 <= s.len() {
                    spec_dict_entries(s, e2, entries_set(acc, key, v))
                } else {
                    (acc, q)
                },
                None => (acc, q),
            }
        } else {
            (acc, q)
        },
        None => (acc, q),
    }
}


fn null_word_bytes() -> (r: Vec<u8>)
    ensures
        r@ == null_word(),
{
    let r = vec![110u8, 117, 108, 108];
    assert(r@ =~= null_word());
    r
}

fn true_word_bytes() -> (r: Vec<u8>)
    ensures
        r@ == true_word(),
{
    let r = vec![116u8, 114, 117, 101];
    assert(r@ =~= true_word());
    r
}

fn false_word_bytes() -> (r: Vec<u8>)
    ensures
        r@ == false_word(),
{
    let r = vec![102u8, 97, 108, 115, 101];
    assert(r@ =~= false_word());
    r
}

/// Reads a reference at `p`.
pub fn reference(s: &[u8], p: usize) -> (r: Option<(u32, u16, usize)>)
    requires
        p <= s@.len(),
    ensures
        match spec_reference(s@, p as int) {
            Some((id, generation, e)) => r == Some((id, generation, e as usize)) && p < e <= s@.len(),
            None => r is None,
        },
{
    proof {
        lemma_digits_end(s@, p as int);
    }
    let n = s.len();
    assert(n == s@.len());
    match unsigned_int(s, p, 4294967295u64) {
        Some((id, e1)) => {
            proof {
                lemma_digits_end(s@, p as int);
            }
            let q1 = space(s, e1);
            proof {
                lemma_digits_end(s@, q1 as int);
            }
            match unsigned_int(s, q1, 65535u64) {
                Some((generation, e2)) => {
                    let q2 = space(s, e2);
                    if q2 < s.len() && s[q2] == 82 {
                        let id32 = id as u32;
                        let gen16 = generation as u16;
                        assert(id32 == id);
                        assert(gen16 == generation);
                        Some((id32, gen16, q2 + 1))
                    } else {
                        None
                    }
                },
                None => None,
            }
        },
        None => None,
    }
}

/// Reads a direct object at `p`, without the white-space after it.
pub fn direct_objects(s: &[u8], p: usize) -> (r: Option<(Object, usize)>)
    requires
        p <= s@.len(),
    ensures
        match spec_direct_objects(s@, p as int) {
            Some((v, e)) => r matches Some((o, e2)) && o@ == v && e2 == e && p < e <= s@.len(),
            None => r is None,
        },
    decreases s@.len() - p, 1nat,
{
    let n = s.len();
    assert(n == s@.len());
    assert(null_word().len() == 4 && true_word().len() == 4 && false_word().len() == 5);
    let null_w = null_word_bytes();
    if tag(s, p, null_w.as_slice()) {
        assert(p + 4 <= s@.len());
        return Some((Object::Null, p + 4));
    }
    if tag(s, p, true_word_bytes().as_slice()) {
        return Some((Object::Boolean(true), p + 4));
    }
    if tag(s, p, false_word_bytes().as_slice()) {
        return Some((Object::Boolean(false), p + 5));
    }
    if let Some((id, generation, e)) = reference(s, p) {
        return Some((Object::Reference((id, generation)), e));
    }
    if let Some((digits, e)) = real_number(s, p) {
        proof { lemma_digits_end(s@, after_sign(s@, p as int)); }
        return Some((Object::Real(digits), e));
    }
    if let Some((v, e)) = integer(s, p) {
        proof { lemma_digits_end(s@, after_sign(s@, p as int)); }
        return Some((Object::Integer(v), e));
    }
    if let Some((n, e)) = name(s, p) {
        proof { lemma_name_chars(s@, p + 1); }
        return Some((Object::Name(n), e));
    }
    if let Some((t, e)) = literal_string(s, p) {
        proof { lemma_lit_scan_end(s@, p + 1, 0); }
        return Some((Object::String(t, StringFormat::Literal), e));
    }
    if let Some((t, e)) = hexadecimal_string(s, p) {
        proof {
            lemma_hex_nibbles(s@, p + 1);
            lemma_skip_white(s@, hex_nibbles(s@, p + 1).1);
        }
        return Some((Object::String(t, StringFormat::Hexadecimal), e));
    }
    if p < s.len() && s[p] == 91 {
        let q = space(s, p + 1);
        let (items, e) = array_items(s, q);
        if e < s.len() && s[e] == 93 {
            proof { lemma_array_value(items); }
            return Some((Object::Array(items), e + 1));
        }
        return None;
    }
    if p < s.len() && s.len() - p > 1 && s[p] == 60 && s[p + 1] == 60 {
        let q = space(s, p + 2);
        let d0 = Dictionary::new();
        assert(pairs_values(dict_pairs(d0)) =~= Seq::<(Seq<u8>, PdfValue)>::empty()) by {
            assert(d0@.len() == dict_pairs(d0).len());
        }
        let (dict, e) = dict_entries(s, q, d0);
        if e < s.len() && s.len() - e > 1 && s[e] == 62 && s[e + 1] == 62 {
            proof { lemma_dictionary_value(dict); }
            return Some((Object::Dictionary(dict), e + 2));
        }
        return None;
    }
    None
}

/// Reads a direct object at `p` and the white-space and comments after it.
pub fn direct_object_at(s: &[u8], p: usize) -> (r: Option<(Object, usize)>)
    requires
        p <= s@.len(),
    ensures
        match spec_direct_object(s@, p as int) {
            Some((v, e)) => r matches Some((o, e2)) && o@ == v && e2 == e && p < e <= s@.len(),
            None => r is None,
        },
    decreases s@.len() - p, 2nat,
{
    match direct_objects(s, p) {
        Some((o, e)) => {
            let e2 = space(s, e);
            Some((o, e2))
        },
        None => None,
    }
}

/// Reads the elements of an array from `q` on.
fn array_items(s: &[u8], q: usize) -> (r: (Vec<Object>, usize))
    requires
        q <= s@.len(),
    ensures
        values_of(r.0@) == spec_array_items(s@, q as int).0,
        r.1 == spec_array_items(s@, q as int).1,
        q <= r.1 <= s@.len(),
    decreases s@.len() - q, 3nat,
{
    let mut items: Vec<Object> = Vec::new();
    let mut pos = q;
    loop
        invariant
            q <= pos <= s@.len(),
            spec_array_items(s@, q as int) == (values_of(items@) + spec_array_items(s@, pos as int).0, spec_array_items(s@, pos as int).1),
        decreases s@.len() - pos,
    {
        match direct_object_at(s, pos) {
            Some((o, e)) => {
                let ghost v = o@;
                let ghost old_items = items@;
                items.push(o);
                proof {
                    assert(values_of(items@) =~= values_of(old_items).push(v));
                    assert(values_of(old_items) + (seq![v] + spec_array_items(s@, e as int).0)
                        =~= values_of(items@) + spec_array_items(s@, e as int).0);
                }
                pos = e;
            },
            None => {
                assert(values_of(items@) + Seq::<PdfValue>::empty() =~= values_of(items@));
                return (items, pos);
            },
        }
    }
}

/// Reads the entries of a dictionary from `q` on, setting them in turn on `acc`.
fn dict_entries(s: &[u8], q: usize, acc: Dictionary) -> (r: (Dictionary, usize))
    requires
        q <= s@.len(),
    ensures
        pairs_values(dict_pairs(r.0)) == spec_dict_entries(s@, q as int, pairs_values(dict_pairs(acc))).0,
        r.1 == spec_dict_entries(s@, q as int, pairs_values(dict_pairs(acc))).1,
        q <= r.1 <= s@.len(),
    decreases s@.len() - q, 3nat,
{
    let mut dict = acc;
    let mut pos = q;
    loop
        invariant
            q <= pos <= s@.len(),
            spec_dict_entries(s@, q as int, pairs_values(dict_pairs(acc)))
                == spec_dict_entries(s@, pos as int, pairs_values(dict_pairs(dict))),
        decreases s@.len() - pos,
    {
        match name(s, pos) {
            Some((key, e1)) => {
                proof { lemma_name_chars(s@, pos + 1); }
                let q1 = space(s, e1);
                match direct_object_at(s, q1) {
                    Some((value, e2)) => {
                        let ghost before = dict_pairs(dict);
                        let ghost k = key;
                        let ghost v = value;
                        dict.set(key, value);
                        proof {
                            lemma_pairs_values_set(before, dict_pairs(dict), k@, v);
                        }
                        pos = e2;
                    },
                    None => {
                        return (dict, pos);
                    },
                }
            },
            None => {
                return (dict, pos);
            },
        }
    }
}

/// Reads a direct object at the start of `input`.
pub fn direct_object(input: &[u8]) -> (r: Option<Object>)
    ensures
        match spec_direct_object(input@, 0) {
            Some((v, e)) => r matches Some(o) && o@ == v,
            None => r is None,
        },
{
    match direct_object_at(input, 0) {
        Some((o, _)) => Some(o),
        None => None,
    }
}

} // verus!

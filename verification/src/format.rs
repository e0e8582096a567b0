//! Decimal renderings of numbers, as PDF files write them.

use vstd::prelude::*;

verus! {

/// The ASCII digit for `d`, which is below 10.
pub open spec fn digit_byte(d: nat) -> u8 {
    (48 + d) as u8
}

/// The last `width` decimal digits of `v`, most significant first, with
/// leading zeros.
pub open spec fn fixed_digits(v: nat, width: nat) -> Seq<u8>
    decreases width,
{
    if width == 0 {
        Seq::empty()
    } else {
        fixed_digits(v / 10, (width - 1) as nat).push(digit_byte(v % 10))
    }
}

/// The decimal digits of `v` without leading zeros (`0` for zero).
pub open spec fn decimal(v: nat) -> Seq<u8>
    decreases v,
{
    if v < 10 {
        seq![digit_byte(v)]
    } else {
        decimal(v / 10).push(digit_byte(v % 10))
    }
}

/// An integer in decimal, with a minus sign when negative.
pub open spec fn signed_decimal(v: int) -> Seq<u8> {
    if v < 0 {
        seq![45u8] + decimal((-v) as nat)
    } else {
        decimal(v as nat)
    }
}

/// Appends the last `width` decimal digits of `v` to `out`.
pub fn push_fixed_digits(out: &mut Vec<u8>, v: u64, width: usize)
    ensures
        final(out)@ == old(out)@ + fixed_digits(v as nat, width as nat),
    decreases width,
{
    if width > 0 {
        push_fixed_digits(out, v / 10, width - 1);
        out.push(48u8 + (v % 10) as u8);
        assert(final(out)@ =~= old(out)@ + fixed_digits(v as nat, width as nat));
    } else {
        assert(final(out)@ =~= old(out)@ + fixed_digits(v as nat, width as nat));
    }
}

/// Appends the decimal digits of `v` to `out`.
pub fn push_decimal(out: &mut Vec<u8>, v: u64)
    ensures
        final(out)@ == old(out)@ + decimal(v as nat),
    decreases v,
{
    if v >= 10 {
        push_decimal(out, v / 10);
    }
    out.push(48u8 + (v % 10) as u8);
    assert(final(out)@ =~= old(out)@ + decimal(v as nat));
}

/// Appends `v` in decimal to `out`, with a minus sign when negative.
pub fn push_signed_decimal(out: &mut Vec<u8>, v: i64)
    ensures
        final(out)@ == old(out)@ + signed_decimal(v as int),
{
    if v < 0 {
        out.push(45u8); // '-'
        let magnitude: u64 = (0i128 - v as i128) as u64;
        push_decimal(out, magnitude);
        assert(final(out)@ =~= old(out)@ + signed_decimal(v as int));
    } else {
        push_decimal(out, v as u64);
    }
}

} // verus!

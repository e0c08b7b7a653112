//! Human-readable sizes: bytes below 1024, else one decimal in KB, MB, GB or TB.
use vstd::prelude::*;
use crate::text::push_char;

verus! {

/// The character of a decimal digit.
pub open spec fn digit_char(d: nat) -> char {
    if d == 0 { '0' } else if d == 1 { '1' } else if d == 2 { '2' } else if d == 3 { '3' }
    else if d == 4 { '4' } else if d == 5 { '5' } else if d == 6 { '6' } else if d == 7 { '7' }
    else if d == 8 { '8' } else { '9' }
}

/// The decimal digits of a number, without leading zeros.
pub open spec fn decimal(n: nat) -> Seq<char>
    decreases n,
{
    if n < 10 {
        seq![digit_char(n)]
    } else {
        decimal(n / 10).push(digit_char(n % 10))
    }
}

fn push_digit(s: &mut String, d: u128)
    requires
        d < 10,
    ensures
        final(s)@ == old(s)@.push(digit_char(d as nat)),
{
    let c = if d == 0 { '0' } else if d == 1 { '1' } else if d == 2 { '2' } else if d == 3 { '3' }
        else if d == 4 { '4' } else if d == 5 { '5' } else if d == 6 { '6' } else if d == 7 { '7' }
        else if d == 8 { '8' } else { '9' };
    push_char(s, c);
}

/// Appends the decimal digits of `n`.
pub fn push_decimal(s: &mut String, n: u128)
    ensures
        final(s)@ == old(s)@ + decimal(n as nat),
    decreases n,
{
    if n >= 10 {
        push_decimal(s, n / 10);
        push_digit(s, n % 10);
        assert(final(s)@ =~= old(s)@ + decimal(n as nat));
    } else {
        push_digit(s, n);
        assert(final(s)@ =~= old(s)@ + decimal(n as nat));
    }
}

/// The unit a size is shown in, as a number of bytes, and its name.
pub open spec fn size_unit(n: nat) -> (nat, Seq<char>) {
    if n < 0x10_0000 {
        (0x400, seq!['K', 'B'])
    } else if n < 0x4000_0000 {
        (0x10_0000, seq!['M', 'B'])
    } else if n < 0x100_0000_0000 {
        (0x4000_0000, seq!['G', 'B'])
    } else {
        (0x100_0000_0000, seq!['T', 'B'])
    }
}

/// How a size reads: `512 B`, `1.5 KB`, `20.0 MB`; tenths are cut, not rounded.
pub open spec fn size_text(n: nat) -> Seq<char> {
    if n < 1024 {
        decimal(n) + seq![' ', 'B']
    } else {
        let unit = size_unit(n).0;
        let tenths = (n / unit) * 10 + (n % unit) * 10 / unit;
        decimal(tenths / 10) + seq!['.', digit_char(tenths % 10), ' '] + size_unit(n).1
    }
}

/// Formats a size in bytes for display.
pub fn format_size(n: u128) -> (r: String)
    ensures
        r@ == size_text(n as nat),
{
    let mut s = String::new();
    if n < 1024 {
        push_decimal(&mut s, n);
        push_char(&mut s, ' ');
        push_char(&mut s, 'B');
        assert(s@ =~= size_text(n as nat));
        return s;
    }
    let unit: u128 = if n < 0x10_0000 { 0x400 } else if n < 0x4000_0000 { 0x10_0000 }
        else if n < 0x100_0000_0000 { 0x4000_0000 } else { 0x100_0000_0000 };
    assert(unit as nat == size_unit(n as nat).0);
    assert((n / unit) * 10 <= n) by (nonlinear_arith)
        requires unit >= 1024;
    assert((n % unit) * 10 < unit * 10) by (nonlinear_arith)
        requires unit >= 1024;
    let tenths: u128 = (n / unit) * 10 + (n % unit) * 10 / unit;
    push_decimal(&mut s, tenths / 10);
    push_char(&mut s, '.');
    push_digit(&mut s, tenths % 10);
    push_char(&mut s, ' ');
    if n < 0x10_0000 {
        push_char(&mut s, 'K');
    } else if n < 0x4000_0000 {
        push_char(&mut s, 'M');
    } else if n < 0x100_0000_0000 {
        push_char(&mut s, 'G');
    } else {
        push_char(&mut s, 'T');
    }
    push_char(&mut s, 'B');
    assert(s@ =~= size_text(n as nat));
    s
}

} // verus!

use vstd::prelude::*;

use crate::text::push_char;

verus! {

/// The decimal digit character for `d` (0..=9).
pub open spec fn digit_char(d: int) -> char {
    (d + 48) as char
}

/// The decimal digits of a natural number, most significant first, with no
/// leading zeros ("0" for zero).
pub open spec fn nat_digits(n: nat) -> Seq<char>
    decreases n,
{
    if n < 10 {
        seq![digit_char(n as int)]
    } else {
        nat_digits(n / 10) + seq![digit_char((n % 10) as int)]
    }
}

/// The decimal representation of an integer, with a leading '-' when it is
/// negative (the form `{}` formatting gives an integer).
pub open spec fn decimal(n: int) -> Seq<char> {
    if n < 0 {
        seq!['-'] + nat_digits((-n) as nat)
    } else {
        nat_digits(n as nat)
    }
}

fn digit(d: u128) -> (c: char)
    requires
        d < 10,
    ensures
        c == digit_char(d as int),
{
    let t: [char; 10] = ['0', '1', '2', '3', '4', '5', '6', '7', '8', '9'];
    let c = t[d as usize];
    assert(c == digit_char(d as int)) by {
        assert(t@[d as int] == c);
    };
    c
}

/// Appends the decimal digits of `n` to `s`.
fn push_nat_digits(s: &mut String, n: u128)
    ensures
        final(s)@ == old(s)@ + nat_digits(n as nat),
    decreases n,
{
    if n < 10 {
        push_char(s, digit(n));
    } else {
        push_nat_digits(s, n / 10);
        push_char(s, digit(n % 10));
        assert(final(s)@ =~= old(s)@ + nat_digits(n as nat));
    }
}

/// The decimal representation of `n`.
pub fn i128_to_decimal(n: i128) -> (s: String)
    ensures
        s@ == decimal(n as int),
{
    let mut s = String::new();
    if n < 0 {
        push_char(&mut s, '-');
        let m: u128 = ((-(n + 1)) as u128) + 1;
        push_nat_digits(&mut s, m);
        assert(s@ =~= decimal(n as int));
    } else {
        push_nat_digits(&mut s, n as u128);
        assert(s@ =~= decimal(n as int));
    }
    s
}

} // verus!

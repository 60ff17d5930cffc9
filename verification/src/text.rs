//! Building texts character by character.

use vstd::prelude::*;

verus! {

/// Appends one character to a string.
///
/// Trusted: this is `String::push` of the standard library, which puts the
/// character behind the last one and changes nothing else.
#[verifier::external_body]
pub(crate) fn push_char(out: &mut String, c: char)
    ensures
        final(out)@ == old(out)@.push(c),
{
    out.push(c);
}

/// The character of a decimal digit; `'9'` for anything above nine.
pub open spec fn digit(d: nat) -> char {
    if d == 0 {
        '0'
    } else if d == 1 {
        '1'
    } else if d == 2 {
        '2'
    } else if d == 3 {
        '3'
    } else if d == 4 {
        '4'
    } else if d == 5 {
        '5'
    } else if d == 6 {
        '6'
    } else if d == 7 {
        '7'
    } else if d == 8 {
        '8'
    } else {
        '9'
    }
}

/// A number written in decimal digits, without leading zeros.
pub open spec fn decimal_text(n: nat) -> Seq<char>
    decreases n,
{
    if n < 10 {
        seq![digit(n)]
    } else {
        decimal_text(n / 10).push(digit(n % 10))
    }
}

/// The character of the decimal digit `d`.
fn digit_char(d: usize) -> (c: char)
    requires
        d < 10,
    ensures
        c == digit(d as nat),
{
    match d {
        0 => '0',
        1 => '1',
        2 => '2',
        3 => '3',
        4 => '4',
        5 => '5',
        6 => '6',
        7 => '7',
        8 => '8',
        _ => '9',
    }
}

/// Writes a number in decimal digits.
pub fn decimal(n: usize) -> (out: String)
    ensures
        out@ == decimal_text(n as nat),
{
    // the digits, the last one first
    let mut digits: Vec<char> = Vec::new();
    let mut rest = n;
    while rest >= 10
        invariant
            decimal_text(n as nat) == decimal_text(rest as nat) + digits@.reverse(),
        decreases rest,
    {
        let ghost before = digits@;
        digits.push(digit_char(rest % 10));
        proof {
            assert(digits@.reverse() =~= seq![digit((rest % 10) as nat)] + before.reverse());
            assert(decimal_text(rest as nat) == decimal_text((rest / 10) as nat).push(
                digit((rest % 10) as nat),
            ));
            assert(decimal_text(rest as nat) + before.reverse() =~= decimal_text(
                (rest / 10) as nat,
            ) + digits@.reverse());
        }
        rest = rest / 10;
    }
    let mut out = String::new();
    push_char(&mut out, digit_char(rest));
    let mut i = digits.len();
    while i > 0
        invariant
            i <= digits.len(),
            out@ == decimal_text(rest as nat) + digits@.reverse().take(digits.len() - i),
        decreases i,
    {
        i -= 1;
        let ghost sofar = out@;
        push_char(&mut out, digits[i]);
        proof {
            let turned = digits@.reverse();
            let k = digits.len() - i;
            assert(turned[k - 1] == digits@[i as int]);
            assert(turned.take(k) =~= turned.take(k - 1).push(turned[k - 1]));
            assert(out@ =~= decimal_text(rest as nat) + turned.take(k));
        }
    }
    proof {
        assert(digits@.reverse().take(digits.len() as int) =~= digits@.reverse());
    }
    out
}

} // verus!

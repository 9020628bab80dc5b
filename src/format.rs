//! Decimal rendering of counts with thousands separators.
use vstd::prelude::*;

verus! {

/// The character of the decimal digit `d`.
pub open spec fn digit_char(d: int) -> char {
    if d == 0 {
        '0'
    } else if d == 1 {
        '1'
    } else if d == 2 {
        '2'
    } else if d == 3 {
        '3'
    } else if d == 4 {
        '4'
    } else if d == 5 {
        '5'
    } else if d == 6 {
        '6'
    } else if d == 7 {
        '7'
    } else if d == 8 {
        '8'
    } else {
        '9'
    }
}

/// The decimal digits of `n`, most significant first.
pub open spec fn decimal(n: nat) -> Seq<char>
    decreases n,
{
    if n < 10 {
        seq![digit_char(n as int)]
    } else {
        decimal(n / 10).push(digit_char((n % 10) as int))
    }
}

/// The three digits of `n < 1000`, with leading zeros.
pub open spec fn three_digits(n: nat) -> Seq<char> {
    seq![digit_char((n / 100) as int), digit_char(((n / 10) % 10) as int), digit_char((n % 10) as int)]
}

/// `n` in decimal with a comma before each group of three digits counted
/// from the right.
pub open spec fn with_commas(n: nat) -> Seq<char>
    decreases n,
{
    if n < 1000 {
        decimal(n)
    } else {
        with_commas(n / 1000) + seq![','] + three_digits(n % 1000)
    }
}

fn digit(d: u64) -> (c: char)
    requires
        d < 10,
    ensures
        c == digit_char(d as int),
{
    if d == 0 {
        '0'
    } else if d == 1 {
        '1'
    } else if d == 2 {
        '2'
    } else if d == 3 {
        '3'
    } else if d == 4 {
        '4'
    } else if d == 5 {
        '5'
    } else if d == 6 {
        '6'
    } else if d == 7 {
        '7'
    } else if d == 8 {
        '8'
    } else {
        '9'
    }
}

fn push_with_commas(n: u64, out: &mut Vec<char>)
    ensures
        final(out)@ == old(out)@ + with_commas(n as nat),
    decreases n,
{
    if n < 1000 {
        if n < 10 {
            out.push(digit(n));
        } else if n < 100 {
            out.push(digit(n / 10));
            out.push(digit(n % 10));
            proof {
                assert(decimal((n / 10) as nat) == seq![digit_char((n / 10) as int)]);
            }
        } else {
            out.push(digit(n / 100));
            out.push(digit((n / 10) % 10));
            out.push(digit(n % 10));
            proof {
                let t = (n / 10) as nat;
                assert(t / 10 == n / 100);
                assert(decimal(t / 10) == seq![digit_char((n / 100) as int)]);
                assert(decimal(t) == seq![digit_char((n / 100) as int)].push(
                    digit_char(((n / 10) % 10) as int),
                ));
            }
        }
        proof {
            assert(final(out)@ =~= old(out)@ + with_commas(n as nat));
        }
    } else {
        push_with_commas(n / 1000, out);
        out.push(',');
        let r = n % 1000;
        out.push(digit(r / 100));
        out.push(digit((r / 10) % 10));
        out.push(digit(r % 10));
        proof {
            assert(final(out)@ =~= old(out)@ + with_commas(n as nat));
        }
    }
}

/// Relies on `String::from_iter`: the string holds the given characters in
/// order.
#[verifier::external_body]
fn string_from_chars(chars: &Vec<char>) -> (s: String)
    ensures
        s@ == chars@,
{
    String::from_iter(chars.iter())
}

/// `num` in decimal with commas between groups of three digits, as in
/// `1,234,567`.
pub fn format_with_commas(num: u64) -> (s: String)
    ensures
        s@ == with_commas(num as nat),
{
    let mut chars: Vec<char> = Vec::new();
    push_with_commas(num, &mut chars);
    proof {
        assert(chars@ =~= with_commas(num as nat));
    }
    string_from_chars(&chars)
}

} // verus!

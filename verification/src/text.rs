//! Rendering small numbers as decimal text.

use vstd::prelude::*;
use vstd::string::*;

verus! {

/// The decimal digit character for `d` in 0..=9.
pub open spec fn spec_digit_char(d: int) -> char {
    if d == 0 {
        '0'
    } else if d == 1 {
        '1'
    } else if d == 2 {
        '2'
    } else if d == 3 {
        '3'
    } else if d == 4 {
        '4'
    } else if d == 5 {
        '5'
    } else if d == 6 {
        '6'
    } else if d == 7 {
        '7'
    } else if d == 8 {
        '8'
    } else {
        '9'
    }
}

/// The decimal rendering of a non-negative number, most significant digit
/// first and without leading zeroes.
pub open spec fn spec_dec_chars(n: int) -> Seq<char>
    recommends
        n >= 0,
    decreases n,
{
    if n < 10 {
        seq![spec_digit_char(n)]
    } else {
        spec_dec_chars(n / 10).push(spec_digit_char(n % 10))
    }
}

/// The character of one decimal digit.
fn digit_str(d: u8) -> (s: &'static str)
    requires
        d < 10,
    ensures
        s@ == seq![spec_digit_char(d as int)],
{
    proof {
        reveal_strlit("0");
        reveal_strlit("1");
        reveal_strlit("2");
        reveal_strlit("3");
        reveal_strlit("4");
        reveal_strlit("5");
        reveal_strlit("6");
        reveal_strlit("7");
        reveal_strlit("8");
        reveal_strlit("9");
    }
    match d {
        0 => "0",
        1 => "1",
        2 => "2",
        3 => "3",
        4 => "4",
        5 => "5",
        6 => "6",
        7 => "7",
        8 => "8",
        _ => "9",
    }
}

/// The decimal rendering of a byte-sized number.
pub fn u8_string(n: u8) -> (s: String)
    ensures
        s@ == spec_dec_chars(n as int),
{
    if n < 10 {
        let mut s = String::new();
        s.append(digit_str(n));
        proof {
            assert(s@ =~= spec_dec_chars(n as int));
        }
        s
    } else if n < 100 {
        let mut s = String::new();
        s.append(digit_str(n / 10));
        s.append(digit_str(n % 10));
        proof {
            assert(n as int / 10 == (n / 10) as int);
            assert(n as int % 10 == (n % 10) as int);
            assert(n as int / 10 < 10);
            assert(spec_dec_chars(n as int) == spec_dec_chars(n as int / 10).push(
                spec_digit_char(n as int % 10),
            ));
            assert(spec_dec_chars(n as int / 10) == seq![spec_digit_char(n as int / 10)]);
            assert(s@ =~= spec_dec_chars(n as int));
        }
        s
    } else {
        let mut s = String::new();
        s.append(digit_str(n / 100));
        s.append(digit_str((n / 10) % 10));
        s.append(digit_str(n % 10));
        proof {
            let m = n as int / 10;
            vstd::arithmetic::div_mod::lemma_div_denominator(n as int, 10, 10);
            assert(m / 10 == n as int / 100);
            assert(m == (n / 10) as int);
            assert(m % 10 == ((n / 10) % 10) as int);
            assert(10 <= m < 100);
            assert(spec_dec_chars(n as int) == spec_dec_chars(m).push(
                spec_digit_char(n as int % 10),
            ));
            assert(spec_dec_chars(m) == spec_dec_chars(m / 10).push(spec_digit_char(m % 10)));
            assert(spec_dec_chars(m / 10) == seq![spec_digit_char(m / 10)]);
            assert(n as int % 10 == (n % 10) as int);
            assert(s@ =~= spec_dec_chars(n as int));
        }
        s
    }
}

} // verus!

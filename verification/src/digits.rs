//! Decimal rendering of integers, used by the error messages.

use vstd::prelude::*;

verus! {

/// The character for one decimal digit.
pub open spec fn digit_char(d: nat) -> char {
    ((0x30 + d) as u8) as char
}

/// The decimal digits of a natural number, most significant first.
pub open spec fn dec_digits(n: nat) -> Seq<char>
    decreases n,
{
    if n < 10 {
        seq![digit_char(n)]
    } else {
        dec_digits(n / 10).push(digit_char(n % 10))
    }
}

/// The decimal rendering of an integer: a minus sign for negative values,
/// then the digits of the magnitude.
pub open spec fn int_str(n: int) -> Seq<char> {
    if n < 0 {
        seq!['-'] + dec_digits((-n) as nat)
    } else {
        dec_digits(n as nat)
    }
}

/// The decimal digits of `n`, most significant first.
fn u64_digits(n: u64) -> (r: Vec<char>)
    ensures
        r@ == dec_digits(n as nat),
    decreases n,
{
    let d: u8 = 0x30 + (n % 10) as u8;
    let c: char = d as char;
    proof {
        assert(c == digit_char((n % 10) as nat));
    }
    if n < 10 {
        let mut r: Vec<char> = Vec::new();
        r.push(c);
        proof {
            assert(r@ =~= seq![digit_char(n as nat)]);
        }
        r
    } else {
        let mut r = u64_digits(n / 10);
        r.push(c);
        r
    }
}

/// The decimal rendering of a signed 32-bit value, as characters.
pub fn i32_dec_chars(n: i32) -> (r: Vec<char>)
    ensures
        r@ == int_str(n as int),
{
    if n < 0 {
        let mag: u64 = (-(n as i64)) as u64;
        let mut r: Vec<char> = Vec::new();
        r.push('-');
        let digits = u64_digits(mag);
        let m = digits.len();
        let mut k: usize = 0;
        while k < m
            invariant
                k <= m,
                m == digits@.len(),
                digits@ == dec_digits(mag as nat),
                r@ == seq!['-'] + digits@.take(k as int),
            decreases m - k,
        {
            proof {
                assert(seq!['-'] + digits@.take(k + 1) =~= (seq!['-'] + digits@.take(
                    k as int,
                )).push(digits@[k as int]));
            }
            r.push(digits[k]);
            k += 1;
        }
        proof {
            assert(digits@.take(m as int) =~= digits@);
            assert(mag == -(n as int));
        }
        r
    } else {
        let r = u64_digits(n as u64);
        r
    }
}

} // verus!

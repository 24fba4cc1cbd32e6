//! Decimal rendering of integer cell values: plain decimal digits with a
//! leading `-` for negative values, no separators and no padding.

use vstd::prelude::*;
use vstd::string::StringExecFns;
use crate::strutil::push_char;

verus! {

/// The decimal digit character for `d` in `0..10`.
pub open spec fn spec_digit_char(d: int) -> char
    recommends
        0 <= d < 10,
{
    ((48 + d) as u8) as char
}

/// Decimal digits of a non-negative integer, most significant first.
pub open spec fn spec_udec(n: int) -> Seq<char>
    recommends
        n >= 0,
    decreases n,
{
    if n < 10 {
        seq![spec_digit_char(n)]
    } else {
        spec_udec(n / 10).push(spec_digit_char(n % 10))
    }
}

/// The canonical decimal text of an integer.
pub open spec fn spec_dec(n: int) -> Seq<char> {
    if n < 0 {
        seq!['-'] + spec_udec(-n)
    } else {
        spec_udec(n)
    }
}

fn digit_char(d: u8) -> (c: char)
    requires
        d < 10,
    ensures
        c == spec_digit_char(d as int),
{
    (48 + d) as char
}

fn udec_string(n: u128) -> (s: String)
    ensures
        s@ == spec_udec(n as int),
    decreases n,
{
    let d: u8 = (n % 10) as u8;
    if n < 10 {
        let mut s = String::new();
        push_char(&mut s, digit_char(d));
        proof {
            assert(s@ =~= spec_udec(n as int));
        }
        s
    } else {
        let mut s = udec_string(n / 10);
        push_char(&mut s, digit_char(d));
        s
    }
}

/// Renders an integer in decimal, with a leading `-` when it is negative.
pub fn int_string(n: i128) -> (s: String)
    ensures
        s@ == spec_dec(n as int),
{
    if n >= 0 {
        udec_string(n as u128)
    } else {
        let mag: u128 = ((-(n + 1)) as u128) + 1;
        proof {
            assert(mag == -(n as int));
        }
        let mut s = String::from_str("-");
        proof {
            reveal_strlit("-");
        }
        let digits = udec_string(mag);
        s.append(digits.as_str());
        proof {
            assert(s@ =~= spec_dec(n as int));
        }
        s
    }
}

} // verus!

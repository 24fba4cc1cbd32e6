//! Small string helpers: appending a single character, collecting the
//! characters of a string slice, and the 52-letter alphabet used by text
//! columns.

use vstd::prelude::*;

verus! {

/// Relies on std's `String::push`: appends exactly one character.
#[verifier::external_body]
pub fn push_char(s: &mut String, c: char)
    ensures
        final(s)@ == old(s)@.push(c),
{
    s.push(c)
}

/// Collects the characters of a string slice into a vector.
pub fn chars_of(s: &str) -> (v: Vec<char>)
    ensures
        v@ == s@,
{
    broadcast use vstd::string::axiom_spec_iter;
    broadcast use vstd::string::next_postcondition;

    let mut it = s.chars();
    let mut v: Vec<char> = Vec::new();
    loop
        invariant
            v@ + vstd::std_specs::iter::IteratorSpec::remaining(&it) == s@,
        ensures
            v@ == s@,
        decreases s@.len() - v@.len(),
    {
        match it.next() {
            Some(c) => v.push(c),
            None => {
                proof {
                    assert(v@ =~= s@);
                }
                break ;
            },
        }
    }
    v
}

/// A character of the alphabet `A-Z a-z` that text columns draw from.
pub open spec fn is_alpha_char(c: char) -> bool {
    ('A' <= c && c <= 'Z') || ('a' <= c && c <= 'z')
}

/// The `i`-th letter of the alphabet: `A-Z` first, then `a-z`.
pub open spec fn spec_letter(i: int) -> char
    recommends
        0 <= i < 52,
{
    if i < 26 {
        ((65 + i) as u8) as char
    } else {
        ((97 + (i - 26)) as u8) as char
    }
}

/// Letter lookup by alphabet index.
pub fn letter_char(i: usize) -> (c: char)
    requires
        i < 52,
    ensures
        c == spec_letter(i as int),
        is_alpha_char(c),
{
    let b: u8 = if i < 26 {
        65 + (i as u8)
    } else {
        97 + ((i as u8) - 26)
    };
    b as char
}

} // verus!

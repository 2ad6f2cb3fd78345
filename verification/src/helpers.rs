//! Identifiers for stored rows.
use vstd::prelude::*;
use rand::Rng;

verus! {

/// `Rng::gen_range(0..16)` of rand on the generator of `rand::thread_rng()`:
/// by rand's documentation a number in the half-open range, drawn at random
/// (the range is not empty, so the call does not panic). Which number comes
/// back is not claimed.
#[verifier::external_body]
fn random_nibble() -> (n: u8)
    ensures
        n < 16,
{
    rand::thread_rng().gen_range(0..16u8)
}

/// A lower-case hexadecimal digit.
pub open spec fn is_hex_digit(c: char) -> bool {
    ('0' <= c && c <= '9') || ('a' <= c && c <= 'f')
}

/// The lower-case hexadecimal digit for `n`.
pub open spec fn hex_char(n: int) -> char {
    if n < 10 {
        ('0' as int + n) as char
    } else {
        ('a' as int + n - 10) as char
    }
}

/// The lower-case hexadecimal digit for a number below 16.
pub fn hex_digit(n: u8) -> (c: char)
    requires
        n < 16,
    ensures
        c == hex_char(n as int),
        is_hex_digit(c),
{
    if n < 10 {
        (48u8 + n) as char
    } else {
        (87u8 + n) as char
    }
}

/// A short random id: twelve lower-case hexadecimal digits.
pub fn id() -> (s: String)
    ensures
        s@.len() == 12,
        forall|i: int| 0 <= i < 12 ==> is_hex_digit(#[trigger] s@[i]),
{
    let mut digits: Vec<char> = Vec::with_capacity(12);
    for i in 0..12usize
        invariant
            digits@.len() == i,
            forall|k: int| 0 <= k < i ==> is_hex_digit(#[trigger] digits@[k]),
    {
        let n = random_nibble();
        digits.push(hex_digit(n));
    }
    crate::engine::text::string_from_chars(digits.as_slice())
}

} // verus!

//! What this crate takes for granted of the standard library.
//!
//! Nothing in this file is proved. Each item states, for one function of
//! `core` or `alloc`, what its documentation promises; every proof in the
//! crate that calls one of these functions rests on the statement made here.

use vstd::prelude::*;

verus! {

/// Whether `c` lies in the ASCII range, U+0000 to U+007F.
pub open spec fn is_ascii(c: char) -> bool {
    c <= '\x7f'
}

/// Whether `c` is one of the ASCII letters `a` to `z` and `A` to `Z`.
pub open spec fn is_ascii_letter(c: char) -> bool {
    ('a' <= c && c <= 'z') || ('A' <= c && c <= 'Z')
}

/// Whether `c` is one of the ten digits `0` to `9`.
pub open spec fn is_decimal_digit(c: char) -> bool {
    '0' <= c && c <= '9'
}

/// The value of `c` read as a digit: `0` to `9` count 0 to 9, and the letters
/// `a` to `z`, in either case, count 10 to 35. No other character is a digit.
pub open spec fn digit_value(c: char) -> Option<int> {
    if '0' <= c && c <= '9' {
        Some(c as int - '0' as int)
    } else if 'a' <= c && c <= 'z' {
        Some(c as int - 'a' as int + 10)
    } else if 'A' <= c && c <= 'Z' {
        Some(c as int - 'A' as int + 10)
    } else {
        None
    }
}

/// The answer of `char::is_alphabetic` for `c`: whether the Unicode character
/// database lists `c` as Alphabetic.
pub uninterp spec fn unicode_alphabetic(c: char) -> bool;

/// The answer of `char::is_alphanumeric` for `c`: whether the Unicode
/// character database lists `c` as Alphabetic or puts it in one of the
/// general categories Nd, Nl and No.
pub uninterp spec fn unicode_alphanumeric(c: char) -> bool;

/// `char::is_alphabetic` is a function of the character alone. Within ASCII
/// the alphabetic characters are exactly the 52 letters.
pub assume_specification[ char::is_alphabetic ](c: char) -> (r: bool)
    ensures
        r == unicode_alphabetic(c),
        is_ascii(c) ==> r == is_ascii_letter(c),
;

/// `char::is_alphanumeric` is a function of the character alone. Within ASCII
/// the alphanumeric characters are exactly the 52 letters and the ten digits.
pub assume_specification[ char::is_alphanumeric ](c: char) -> (r: bool)
    ensures
        r == unicode_alphanumeric(c),
        is_ascii(c) ==> r == (is_ascii_letter(c) || is_decimal_digit(c)),
;

/// `char::is_digit` tells whether the character is a digit whose value lies
/// below the radix. It panics on a radix outside 2 to 36, which the
/// precondition leaves out.
pub assume_specification[ char::is_digit ](c: char, radix: u32) -> (r: bool)
    requires
        2 <= radix <= 36,
    ensures
        r == (digit_value(c) matches Some(d) && d < radix),
;

/// `String::push` appends the character to the end of the string.
pub assume_specification[ std::string::String::push ](s: &mut std::string::String, c: char)
    ensures
        final(s)@ == old(s)@.push(c),
;

/// `==` on string slices holds exactly when both hold the same characters in
/// the same order.
pub assume_specification[ <str as PartialEq>::eq ](a: &str, b: &str) -> (r: bool)
    ensures
        r == (a@ == b@),
;

} // verus!

//! Character classes and case mapping.
//!
//! ASCII is spelled out here. What Unicode says of the other characters comes from the tables of
//! the standard library, and the contracts refer to it by name.

use vstd::prelude::*;

use crate::utf8::is_ascii_char;

verus! {

/// What `char::is_alphabetic` answers for a character outside ASCII.
pub uninterp spec fn unicode_alphabetic(c: char) -> bool;

/// What `char::is_alphanumeric` answers for a character outside ASCII.
pub uninterp spec fn unicode_alphanumeric(c: char) -> bool;

/// The characters that `char::to_lowercase` yields, in order.
pub uninterp spec fn unicode_lowercase(c: char) -> Seq<char>;

/// `char::is_alphabetic` tells whether a character has Unicode's Alphabetic property. Of the ASCII
/// characters those are the letters; for any other character the answer is the one that
/// `unicode_alphabetic` names.
pub assume_specification[ char::is_alphabetic ](c: char) -> (answer: bool)
    ensures
        is_ascii_char(c) ==> answer == is_ascii_letter(c),
        !is_ascii_char(c) ==> answer == unicode_alphabetic(c),
;

/// `char::is_alphanumeric` tells whether a character is alphabetic or numeric by Unicode's
/// properties. Of the ASCII characters those are the letters and the digits; for any other
/// character the answer is the one that `unicode_alphanumeric` names.
pub assume_specification[ char::is_alphanumeric ](c: char) -> (answer: bool)
    ensures
        is_ascii_char(c) ==> answer == (is_ascii_letter(c) || is_ascii_digit(c)),
        !is_ascii_char(c) ==> answer == unicode_alphanumeric(c),
;

/// The lowercase mapping of `c`, collected from `char::to_lowercase`, which yields it as one or
/// more characters. Which characters those are depends on `c` alone; `unicode_lowercase` names
/// them. Which ASCII characters can be among them is left unsaid: what rests on that takes it as a
/// premise.
#[verifier::external_body]
pub(crate) fn to_lowercase(c: char) -> (chars: Vec<char>)
    ensures
        chars@ == unicode_lowercase(c),
        chars@.len() >= 1,
{
    c.to_lowercase().collect()
}

/// Whether `c` is one of `a` to `z`.
#[verifier::allow_in_spec]
pub fn is_ascii_lower(c: char) -> bool
    returns
        'a' <= c && c <= 'z',
{
    'a' <= c && c <= 'z'
}

/// Whether `c` is one of `A` to `Z`.
#[verifier::allow_in_spec]
pub fn is_ascii_upper(c: char) -> bool
    returns
        'A' <= c && c <= 'Z',
{
    'A' <= c && c <= 'Z'
}

/// Whether `c` is an ASCII letter.
#[verifier::allow_in_spec]
pub fn is_ascii_letter(c: char) -> bool
    returns
        is_ascii_lower(c) || is_ascii_upper(c),
{
    is_ascii_lower(c) || is_ascii_upper(c)
}

/// Whether `c` is one of `0` to `9`.
#[verifier::allow_in_spec]
pub fn is_ascii_digit(c: char) -> bool
    returns
        '0' <= c && c <= '9',
{
    '0' <= c && c <= '9'
}

/// Whether `c` counts as a letter.
pub open spec fn alphabetic(c: char) -> bool {
    if is_ascii_char(c) {
        is_ascii_letter(c)
    } else {
        unicode_alphabetic(c)
    }
}

/// Whether `c` counts as a letter or a numeral.
pub open spec fn alphanumeric(c: char) -> bool {
    if is_ascii_char(c) {
        is_ascii_letter(c) || is_ascii_digit(c)
    } else {
        unicode_alphanumeric(c)
    }
}

/// The lowercase form of an ASCII character.
pub open spec fn ascii_lowercase(c: char) -> char {
    if is_ascii_upper(c) {
        ((c as u32) + 32) as char
    } else {
        c
    }
}

/// The lowercase form of `c`, which may be more than one character.
pub open spec fn lowercase(c: char) -> Seq<char> {
    if is_ascii_char(c) {
        seq![ascii_lowercase(c)]
    } else {
        unicode_lowercase(c)
    }
}

/// The byte of the lowercase form of the ASCII character `c`.
pub(crate) fn ascii_lowercase_byte(c: char) -> (byte: u8)
    requires
        is_ascii_char(c),
    ensures
        byte == ascii_lowercase(c) as u8,
{
    if is_ascii_upper(c) {
        c as u8 + 32
    } else {
        c as u8
    }
}

} // verus!

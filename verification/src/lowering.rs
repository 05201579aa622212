//! What the laws presuppose of the lowercase forms of characters outside ASCII.
//!
//! Those forms come from the Unicode tables of the standard library. The functions of this module
//! tell whether a given text meets what is presupposed; ASCII text always does.

use vstd::prelude::*;

use crate::sanitize::{
    is_allowed_tag_punctuation, is_combining_mark, is_plain_tag_char, plain_tag_char, separates,
};
use crate::unicode::{alphabetic, is_ascii_lower, to_lowercase, unicode_lowercase};
use crate::utf8::{is_ascii_char, lemma_char_nonnegative};

verus! {

/// Whether the lowercase form of `c` holds something, and no ASCII character but lowercase letters
/// if `c` is not ASCII itself.
pub open spec fn lowers_to_text(c: char) -> bool {
    !is_ascii_char(c) ==> {
        &&& unicode_lowercase(c).len() > 0
        &&& forall|i: int|
            0 <= i < unicode_lowercase(c).len() && is_ascii_char(
                #[trigger] unicode_lowercase(c)[i],
            ) ==> is_ascii_lower(unicode_lowercase(c)[i])
    }
}

/// Whether every character of `text` lowers to text.
pub open spec fn all_lower_to_text(text: Seq<char>) -> bool {
    forall|i: int| 0 <= i < text.len() ==> lowers_to_text(#[trigger] text[i])
}

/// Whether no character of `text` has a newline in its lowercase form.
pub open spec fn lowers_without_newline(text: Seq<char>) -> bool {
    forall|i: int|
        0 <= i < text.len() && !is_ascii_char(#[trigger] text[i]) ==> !unicode_lowercase(
            text[i],
        ).contains('\n')
}

/// Whether the lowercase form of `c` is settled if `c` is a word character outside ASCII: it is
/// made of word characters that are their own lowercase form, and starts with a letter exactly if
/// `c` is one.
pub open spec fn lowers_for_good(c: char) -> bool {
    !is_ascii_char(c) && !separates(c) ==> {
        &&& unicode_lowercase(c).len() > 0
        &&& forall|i: int|
            0 <= i < unicode_lowercase(c).len() ==> is_settled(#[trigger] unicode_lowercase(c)[i])
        &&& alphabetic(unicode_lowercase(c).first()) == alphabetic(c)
    }
}

/// Whether `c` is a word character and its own lowercase form.
pub open spec fn is_settled(c: char) -> bool {
    plain_tag_char(c) && c != '_'
}

/// Whether the lowercase form of every character of `text` is settled.
pub open spec fn all_lower_for_good(text: Seq<char>) -> bool {
    forall|i: int| 0 <= i < text.len() ==> lowers_for_good(#[trigger] text[i])
}

/// Returns `true` if `c` lowers to text, which holds no newline then.
fn char_lowers_to_text(c: char) -> (plain: bool)
    ensures
        plain == lowers_to_text(c),
        plain && !is_ascii_char(c) ==> !unicode_lowercase(c).contains('\n'),
{
    proof {
        lemma_char_nonnegative(c);
    }
    if c <= '\x7f' {
        return true;
    }
    let lowered = to_lowercase(c);
    let mut i: usize = 0;
    while i < lowered.len()
        invariant
            i <= lowered@.len(),
            !is_ascii_char(c),
            lowered@ == unicode_lowercase(c),
            forall|j: int|
                0 <= j < i && is_ascii_char(#[trigger] lowered@[j]) ==> is_ascii_lower(lowered@[j]),
        decreases lowered@.len() - i,
    {
        let d = lowered[i];
        proof {
            lemma_char_nonnegative(d);
        }
        if d <= '\x7f' && !is_ascii_lower(d) {
            assert(is_ascii_char(unicode_lowercase(c)[i as int]));
            return false;
        }
        i += 1;
    }
    true
}

/// Returns `true` if no character of `text` has a newline in its lowercase form, and every one of
/// them lowers to text.
pub fn lowers_to_plain_text(text: &str) -> (plain: bool)
    ensures
        plain == (lowers_without_newline(text@) && all_lower_to_text(text@)),
{
    for character in it: text.chars()
        invariant
            it.seq() == text@,
            forall|i: int| 0 <= i < it.index() ==> lowers_to_text(#[trigger] text@[i]),
            forall|i: int|
                0 <= i < it.index() && !is_ascii_char(#[trigger] text@[i]) ==> !unicode_lowercase(
                    text@[i],
                ).contains('\n'),
    {
        assert(text@[it.index() as int] == character);
        if !char_lowers_to_text(character) {
            return false;
        }
    }
    true
}

/// Returns `true` if the lowercase form of `c` is settled.
fn char_lowers_for_good(c: char) -> (settled: bool)
    ensures
        settled == lowers_for_good(c),
{
    proof {
        lemma_char_nonnegative(c);
    }
    let word = c != '_' && (c.is_alphanumeric() || is_allowed_tag_punctuation(c)
        || is_combining_mark(c));
    if c <= '\x7f' || !word {
        return true;
    }
    let lowered = to_lowercase(c);
    let mut i: usize = 0;
    while i < lowered.len()
        invariant
            i <= lowered@.len(),
            !is_ascii_char(c),
            !separates(c),
            lowered@ == unicode_lowercase(c),
            forall|j: int| 0 <= j < i ==> is_settled(#[trigger] lowered@[j]),
        decreases lowered@.len() - i,
    {
        if lowered[i] == '_' || !is_plain_tag_char(lowered[i]) {
            assert(!is_settled(unicode_lowercase(c)[i as int]));
            return false;
        }
        i += 1;
    }
    lowered[0].is_alphabetic() == c.is_alphabetic()
}

/// Returns `true` if the lowercase form of every character of `text` is settled.
pub fn lowers_to_settled_text(text: &str) -> (settled: bool)
    ensures
        settled == all_lower_for_good(text@),
{
    for character in it: text.chars()
        invariant
            it.seq() == text@,
            forall|i: int| 0 <= i < it.index() ==> lowers_for_good(#[trigger] text@[i]),
    {
        assert(text@[it.index() as int] == character);
        if !char_lowers_for_good(character) {
            return false;
        }
    }
    true
}

} // verus!

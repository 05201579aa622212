//! How the text of a tag or a name comes about, character by character and word by word.

use vstd::prelude::*;

use crate::sanitize::{
    all_separate, combining_mark, conformant_name, conformant_tag, name_char, plain_name_char,
    plain_tag_char, sanitized_name, sanitized_tag, separates, tag_text,
};
use crate::unicode::{
    alphabetic, alphanumeric, lowercase, unicode_alphabetic, unicode_alphanumeric,
    unicode_lowercase,
};

verus! {

/// Of the ASCII characters the letters are alphabetic, and the letters and the digits alphanumeric.
/// Unicode decides on the others.
pub proof fn law_character_classes(c: char)
    ensures
        (c as u32) < 0x80 ==> {
            &&& alphabetic(c) <==> 'a' <= c <= 'z' || 'A' <= c <= 'Z'
            &&& alphanumeric(c) <==> 'a' <= c <= 'z' || 'A' <= c <= 'Z' || '0' <= c <= '9'
        },
        c as u32 >= 0x80 ==> {
            &&& alphabetic(c) == unicode_alphabetic(c)
            &&& alphanumeric(c) == unicode_alphanumeric(c)
        },
{
}

/// The lowercase form of an ASCII letter is the small letter of the same place in the alphabet; any
/// other ASCII character is its own. Unicode decides on the others.
pub proof fn law_lowercase_forms(c: char)
    ensures
        (c as u32) < 0x80 ==> {
            &&& lowercase(c).len() == 1
            &&& if 'A' <= c <= 'Z' {
                'a' <= lowercase(c)[0] <= 'z' && lowercase(c)[0] as u32 - 'a' as u32 == c as u32
                    - 'A' as u32
            } else {
                lowercase(c)[0] == c
            }
        },
        c as u32 >= 0x80 ==> lowercase(c) == unicode_lowercase(c),
{
}

/// Letters, digits, hyphens, colons, periods and slashes make up the words of a tag. Every other
/// ASCII character separates words, and so does every other character that is neither alphanumeric
/// nor in one of the five general-purpose blocks of combining marks.
pub proof fn law_what_separates_words(c: char)
    ensures
        (c as u32) < 0x80 ==> (separates(c) <==> !('a' <= c <= 'z' || 'A' <= c <= 'Z' || '0' <= c
            <= '9' || c == '-' || c == ':' || c == '.' || c == '/')),
        c as u32 >= 0x80 ==> (separates(c) <==> !unicode_alphanumeric(c) && !combining_mark(c)),
{
}

/// The blocks of combining marks, each by its first character and the number of its characters.
pub proof fn law_blocks_of_combining_marks(c: char)
    ensures
        combining_mark(c) <==> {
            ||| 0 <= c as u32 - 0x0300 < 112
            ||| 0 <= c as u32 - 0x1AB0 < 80
            ||| 0 <= c as u32 - 0x1DC0 < 64
            ||| 0 <= c as u32 - 0x20D0 < 33
            ||| 0 <= c as u32 - 0xFE20 < 16
        },
{
}

/// A word character by itself stands for its lowercase form, after an underscore if it has to be a
/// letter and is not.
pub proof fn law_word_character_by_itself(c: char, lead: bool)
    requires
        !separates(c),
    ensures
        tag_text(seq![c], lead) == if lead && !alphabetic(c) {
            seq!['_'] + lowercase(c)
        } else {
            lowercase(c)
        },
{
    reveal_with_fuel(tag_text, 2);
    assert(seq![c].drop_last() =~= Seq::<char>::empty());
    assert(tag_text(seq![c], lead) =~= if lead && !alphabetic(c) {
        seq!['_'] + lowercase(c)
    } else {
        lowercase(c)
    });
}

/// What the characters of a text stand for does not depend on which separators stand in it: each of
/// them counts as an underscore. Two inputs that differ in separators alone are sanitized alike.
pub proof fn law_separators_count_as_underscores(
    a: Seq<char>,
    b: Seq<char>,
    budget: nat,
    lead: bool,
)
    requires
        a.len() == b.len(),
        forall|i: int|
            0 <= i < a.len() ==> #[trigger] a[i] == b[i] || (separates(a[i]) && separates(b[i])),
    ensures
        sanitized_tag(a, budget, lead) == sanitized_tag(b, budget, lead),
{
    lemma_separators_alike(a, b, lead);
}

proof fn lemma_separators_alike(a: Seq<char>, b: Seq<char>, lead: bool)
    requires
        a.len() == b.len(),
        forall|i: int|
            0 <= i < a.len() ==> #[trigger] a[i] == b[i] || (separates(a[i]) && separates(b[i])),
    ensures
        tag_text(a, lead) == tag_text(b, lead),
    decreases a.len(),
{
    if a.len() > 0 {
        assert(a[a.len() - 1] == a.last());
        let before = a.drop_last();
        assert forall|i: int| 0 <= i < before.len() implies #[trigger] before[i] == b.drop_last()[i]
            || (separates(before[i]) && separates(b.drop_last()[i])) by {
            assert(before[i] == a[i]);
        }
        lemma_separators_alike(before, b.drop_last(), lead);
        if a.len() > 1 {
            assert(a[a.len() - 2] == before.last());
        }
    }
}

/// Replacing every separator of an input by an underscore does not change what it is sanitized to.
pub proof fn law_invalid_characters_become_underscores(input: Seq<char>, budget: nat, lead: bool)
    ensures
        sanitized_tag(
            input.map_values(
                |c: char|
                    if separates(c) {
                        '_'
                    } else {
                        c
                    },
            ),
            budget,
            lead,
        ) == sanitized_tag(input, budget, lead),
{
    let replaced = input.map_values(
        |c: char|
            if separates(c) {
                '_'
            } else {
                c
            },
    );
    law_separators_count_as_underscores(replaced, input, budget, lead);
}

/// Words are joined by one underscore, whatever run of separators stands between them, and by
/// nothing if none does. What has to start with a letter is the first word alone.
pub proof fn law_words_are_joined(
    left: Seq<char>,
    gap: Seq<char>,
    right: Seq<char>,
    lead: bool,
)
    requires
        left.len() > 0,
        right.len() > 0,
        !separates(left.last()),
        !separates(right.first()),
        lowercase(left.last()).len() > 0,
        lowercase(right.first()).len() > 0,
        all_separate(gap),
    ensures
        tag_text(left + gap + right, lead) == if gap.len() > 0 {
            tag_text(left, lead) + seq!['_'] + tag_text(right, false)
        } else {
            tag_text(left, lead) + tag_text(right, false)
        },
        tag_text(right, false).len() > 0,
    decreases right.len(),
{
    let before = left + gap + right.drop_last();
    let c = right.last();
    let joint = if gap.len() > 0 {
        seq!['_']
    } else {
        Seq::empty()
    };
    assert((left + gap + right).drop_last() =~= before);
    if right.len() == 1 {
        assert(right =~= seq![c]);
        law_word_character_by_itself(c, false);
        assert(before =~= left + gap);
        lemma_separators_add_nothing(left, gap, lead);
        assert(tag_text(left, lead).len() > 0);
        assert(before.last() == if gap.len() > 0 {
            gap.last()
        } else {
            left.last()
        });
        if gap.len() > 0 {
            assert(separates(gap[gap.len() - 1]));
        }
    } else {
        law_words_are_joined(left, gap, right.drop_last(), lead);
        assert(before.last() == right.drop_last().last());
    }
    assert(tag_text(left + gap + right, lead) =~= tag_text(left, lead) + joint + tag_text(
        right,
        false,
    ));
    assert(tag_text(left, lead) + Seq::<char>::empty() + tag_text(right, false) =~= tag_text(
        left,
        lead,
    ) + tag_text(right, false));
}

proof fn lemma_separators_add_nothing(left: Seq<char>, gap: Seq<char>, lead: bool)
    requires
        all_separate(gap),
    ensures
        tag_text(left + gap, lead) == tag_text(left, lead),
    decreases gap.len(),
{
    if gap.len() == 0 {
        assert(left + gap =~= left);
    } else {
        assert(separates(gap[gap.len() - 1]));
        assert((left + gap).drop_last() =~= left + gap.drop_last());
        lemma_separators_add_nothing(left, gap.drop_last(), lead);
    }
}

/// Separators by themselves stand for nothing, and neither do those before the first word or after
/// the last.
pub proof fn law_outer_separators_stand_for_nothing(
    before: Seq<char>,
    input: Seq<char>,
    after: Seq<char>,
    lead: bool,
)
    requires
        all_separate(before),
        all_separate(after),
    ensures
        tag_text(before + input + after, lead) == tag_text(input, lead),
        tag_text(before, lead) == Seq::<char>::empty(),
    decreases input.len(),
{
    lemma_separators_add_nothing(before + input, after, lead);
    lemma_separators_add_nothing(Seq::empty(), before, lead);
    assert(Seq::<char>::empty() + before =~= before);
    if input.len() == 0 {
        assert(before + input =~= before);
        assert(input =~= Seq::<char>::empty());
    } else {
        let none = Seq::<char>::empty();
        law_outer_separators_stand_for_nothing(before, input.drop_last(), none, lead);
        assert(before + input.drop_last() + none =~= before + input.drop_last());
        assert((before + input).drop_last() =~= before + input.drop_last());
    }
}

/// A sanitized element is the start of the text that its input stands for: all of it if it fits,
/// and otherwise as much as fits, but for an underscore that would come last.
pub proof fn law_element_is_start_of_text(input: Seq<char>, budget: nat, lead: bool)
    ensures
        ({
            let text = tag_text(input, lead);
            let element = sanitized_tag(input, budget, lead);
            &&& element.len() <= text.len()
            &&& element == text.take(element.len() as int)
            &&& text.len() <= budget ==> element.len() == text.len()
            &&& text.len() > budget && budget > 1 && text[budget - 1] == '_' ==> element.len()
                == budget - 1
            &&& text.len() > budget && (budget <= 1 || text[budget - 1] != '_') ==> element.len()
                == budget
        }),
{
    let text = tag_text(input, lead);
    let element = sanitized_tag(input, budget, lead);
    assert(element =~= text.take(element.len() as int));
}

/// Letters, digits, underscores and periods may stand in a metric name. An underscore stands for
/// any other character.
pub proof fn law_name_characters(c: char)
    ensures
        plain_name_char(c) <==> ('a' <= c <= 'z' || 'A' <= c <= 'Z' || '0' <= c <= '9' || c == '_'
            || c == '.'),
        plain_name_char(c) ==> name_char(c) == c,
        !plain_name_char(c) ==> name_char(c) == '_',
{
}

/// A name that has to start with a letter and does is treated like one that does not have to. One
/// that does not gets an underscore in front, and loses nothing but the room for it.
pub proof fn law_name_gets_leading_underscore(input: Seq<char>, budget: nat)
    requires
        input.len() > 0,
        budget > 0,
    ensures
        ({
            let c = input.first();
            let element = sanitized_name(input, budget, true);
            if 'a' <= c <= 'z' || 'A' <= c <= 'Z' {
                element == sanitized_name(input, budget, false)
            } else {
                element == seq!['_'] + sanitized_name(input, (budget - 1) as nat, false)
            }
        }),
{
    let c = input.first();
    let rest = sanitized_name(input, (budget - 1) as nat, false);
    if !('a' <= c <= 'z' || 'A' <= c <= 'Z') {
        assert(sanitized_name(input, budget, true) =~= seq!['_'] + rest);
    }
}

/// A conformant element starts and ends with a word character, starts with a letter if it has to,
/// and fits.
pub proof fn law_conformant_tags_start_and_end_with_words(
    input: Seq<char>,
    budget: nat,
    lead: bool,
)
    requires
        conformant_tag(input, budget, lead),
    ensures
        0 < input.len() <= budget,
        !separates(input.first()),
        !separates(input.last()),
        lead ==> alphabetic(input.first()),
{
    assert(plain_tag_char(input[0]) && plain_tag_char(input[input.len() - 1]));
}

/// A name is conformant exactly if it is kept as it is and, where it has to start with a letter,
/// does so.
pub proof fn law_conformant_names_are_those_kept(input: Seq<char>, budget: nat, lead: bool)
    ensures
        conformant_name(input, budget, lead) <==> {
            &&& sanitized_name(input, budget, false) == input
            &&& lead ==> input.len() > 0 && ('a' <= input.first() <= 'z' || 'A' <= input.first()
                <= 'Z')
        },
{
    let mapped = input.map_values(|c: char| name_char(c));
    if conformant_name(input, budget, lead) {
        assert(mapped =~= input);
    } else if sanitized_name(input, budget, false) == input {
        assert(input.len() <= budget);
        assert forall|i: int| 0 <= i < input.len() implies plain_name_char(#[trigger] input[i]) by {
            assert(mapped[i] == input[i]);
        }
    }
}

/// An empty name stays empty, and so does any name where there is no room.
pub proof fn law_nothing_comes_of_nothing(input: Seq<char>, budget: nat, lead: bool)
    requires
        input.len() == 0 || budget == 0,
    ensures
        sanitized_name(input, budget, lead).len() == 0,
        sanitized_tag(input, budget, lead).len() == 0,
{
}

} // verus!

//! What holds of every sanitized tag and metric name.

use vstd::prelude::*;

use crate::line::{MAX_METRIC_NAME_LENGTH, clean_name, clean_prefix};
use crate::lowering::{
    all_lower_for_good, all_lower_to_text, is_settled, lowers_for_good, lowers_to_text,
};
use crate::metric::LabelView;
use crate::sanitize::{
    combining_mark, conformant_name, conformant_tag, cut, joint, lemma_conformant_tag, name_char,
    name_text, plain_name_char, plain_tag_char, sanitized_name, sanitized_tag, separates, tag_text,
};
use crate::tags::{MAX_TAG_LENGTH, clean_tag, tag, tag_list};
use crate::unicode::{alphabetic, ascii_lowercase, is_ascii_letter, lowercase};
use crate::utf8::is_ascii_char;

verus! {

/// Whether every ASCII character of `text` may stand in a tag.
pub open spec fn only_tag_chars(text: Seq<char>) -> bool {
    forall|i: int|
        0 <= i < text.len() && is_ascii_char(#[trigger] text[i]) ==> plain_tag_char(text[i])
}

/// Whether no two underscores follow each other in `text`.
pub open spec fn no_underscore_runs(text: Seq<char>) -> bool {
    forall|i: int| 0 < i < text.len() ==> !(text[i - 1] == '_' && #[trigger] text[i] == '_')
}

/// The lowercase form of a word character holds something, no underscore, and of ASCII only what
/// may stand in a tag.
proof fn lemma_word_char(c: char)
    requires
        !separates(c),
        lowers_to_text(c),
    ensures
        lowercase(c).len() > 0,
        only_tag_chars(lowercase(c)),
        forall|i: int| 0 <= i < lowercase(c).len() ==> #[trigger] lowercase(c)[i] != '_',
{
}

/// What holds of the text that a tag stands for before it is cut.
proof fn lemma_tag_text(input: Seq<char>, lead: bool)
    requires
        all_lower_to_text(input),
    ensures
        only_tag_chars(tag_text(input, lead)),
        no_underscore_runs(tag_text(input, lead)),
        tag_text(input, lead).len() > 0 ==> tag_text(input, lead).last() != '_',
        tag_text(input, lead).len() > 0 && !lead ==> tag_text(input, lead).first() != '_',
        tag_text(input, lead).len() > 0 && lead ==> tag_text(input, lead).first() == '_' || exists|
            c: char,
        |
            #![trigger lowercase(c)]
            alphabetic(c) && tag_text(input, lead).first() == lowercase(c).first(),
    decreases input.len(),
{
    if input.len() > 0 {
        let before = input.drop_last();
        let c = input.last();
        let text = tag_text(before, lead);
        assert(lowers_to_text(input[input.len() - 1]));
        lemma_tag_text(before, lead);
        if !separates(c) {
            lemma_word_char(c);
            let gap = joint(text, before, c, lead);
            let result = text + gap + lowercase(c);
            assert forall|i: int| 0 <= i < result.len() && is_ascii_char(
                #[trigger] result[i],
            ) implies plain_tag_char(result[i]) by {
                if i < text.len() {
                    assert(result[i] == text[i]);
                } else if i >= text.len() + gap.len() {
                    assert(result[i] == lowercase(c)[i - text.len() - gap.len()]);
                }
            }
            assert forall|i: int| 0 < i < result.len() implies !(result[i - 1] == '_'
                && #[trigger] result[i] == '_') by {
                if i < text.len() {
                    assert(result[i] == text[i] && result[i - 1] == text[i - 1]);
                } else if i >= text.len() + gap.len() {
                    assert(result[i] == lowercase(c)[i - text.len() - gap.len()]);
                } else {
                    assert(result[i - 1] == text.last());
                }
            }
            assert(result.last() == lowercase(c).last());
            if text.len() == 0 {
                assert(result.first() == if gap.len() > 0 {
                    '_'
                } else {
                    lowercase(c).first()
                });
            } else {
                assert(result.first() == text.first());
            }
        }
    }
}

/// A sanitized tag element is at most `budget` characters long.
pub proof fn law_tag_within_budget(input: Seq<char>, budget: nat, lead: bool)
    ensures
        sanitized_tag(input, budget, lead).len() <= budget,
{
}

/// A sanitized tag element holds no ASCII character that a tag may not hold; in particular no
/// newline, bar or comma.
pub proof fn law_tag_charset(input: Seq<char>, budget: nat, lead: bool)
    requires
        all_lower_to_text(input),
    ensures
        only_tag_chars(sanitized_tag(input, budget, lead)),
{
    lemma_tag_text(input, lead);
}

/// Runs of underscores are collapsed.
pub proof fn law_tag_underscores_collapsed(input: Seq<char>, budget: nat, lead: bool)
    requires
        all_lower_to_text(input),
    ensures
        no_underscore_runs(sanitized_tag(input, budget, lead)),
{
    lemma_tag_text(input, lead);
    let text = tag_text(input, lead);
    let result = sanitized_tag(input, budget, lead);
    assert forall|i: int| 0 < i < result.len() implies !(result[i - 1] == '_'
        && #[trigger] result[i] == '_') by {
        assert(result[i] == text[i] && result[i - 1] == text[i - 1]);
    }
}

/// Trailing underscores are trimmed, also where the element is cut short. The only element that
/// ends with an underscore is the one in which the leading underscore of a key is all that fits.
pub proof fn law_tag_trailing_trimmed(input: Seq<char>, budget: nat, lead: bool)
    requires
        all_lower_to_text(input),
        sanitized_tag(input, budget, lead).len() > 0,
    ensures
        sanitized_tag(input, budget, lead).last() != '_' || (lead && budget == 1 && sanitized_tag(
            input,
            budget,
            lead,
        ) == seq!['_']),
{
    lemma_tag_text(input, lead);
    let text = tag_text(input, lead);
    let result = sanitized_tag(input, budget, lead);
    let kept = cut(text, budget);
    if result.len() == 1 {
        assert(result =~= seq![result[0]]);
        assert(result[0] == text.first());
    }
    if kept.len() > 1 && kept.len() < text.len() && kept.last() == '_' {
        assert(!(text[budget - 2] == '_' && text[budget - 1] == '_'));
    }
}

/// Leading underscores are trimmed from an element that need not start with a letter.
pub proof fn law_tag_leading_trimmed(input: Seq<char>, budget: nat)
    requires
        all_lower_to_text(input),
    ensures
        sanitized_tag(input, budget, false).len() > 0 ==> sanitized_tag(
            input,
            budget,
            false,
        ).first() != '_',
{
    lemma_tag_text(input, false);
}

/// An element that has to start with a letter starts with the lowercase form of one, or with an
/// underscore in front of what is not one.
pub proof fn law_tag_starts_with_letter(input: Seq<char>, budget: nat)
    requires
        all_lower_to_text(input),
        sanitized_tag(input, budget, true).len() > 0,
    ensures
        sanitized_tag(input, budget, true).first() == '_' || exists|c: char|
            #![trigger lowercase(c)]
            alphabetic(c) && sanitized_tag(input, budget, true).first() == lowercase(c).first(),
{
    lemma_tag_text(input, true);
}

/// What separates words does not matter before the first word and after the last.
pub proof fn law_tag_ignores_outer_separators(
    before: Seq<char>,
    input: Seq<char>,
    after: Seq<char>,
    budget: nat,
    lead: bool,
)
    requires
        forall|i: int| 0 <= i < before.len() ==> separates(#[trigger] before[i]),
        forall|i: int| 0 <= i < after.len() ==> separates(#[trigger] after[i]),
    ensures
        sanitized_tag(before + input + after, budget, lead) == sanitized_tag(input, budget, lead),
{
    lemma_tag_text_trailing(before + input, after, lead);
    lemma_tag_text_leading(before, input, lead);
}

proof fn lemma_tag_text_trailing(input: Seq<char>, after: Seq<char>, lead: bool)
    requires
        forall|i: int| 0 <= i < after.len() ==> separates(#[trigger] after[i]),
    ensures
        tag_text(input + after, lead) == tag_text(input, lead),
    decreases after.len(),
{
    if after.len() == 0 {
        assert(input + after =~= input);
    } else {
        lemma_tag_text_trailing(input, after.drop_last(), lead);
        assert((input + after).drop_last() =~= input + after.drop_last());
        assert(separates(after[after.len() - 1]));
    }
}

proof fn lemma_tag_text_leading(before: Seq<char>, input: Seq<char>, lead: bool)
    requires
        forall|i: int| 0 <= i < before.len() ==> separates(#[trigger] before[i]),
    ensures
        tag_text(before + input, lead) == tag_text(input, lead),
    decreases input.len(),
{
    if input.len() == 0 {
        lemma_tag_text_trailing(Seq::empty(), before, lead);
        assert(Seq::<char>::empty() + before =~= before + input);
        assert(input =~= Seq::<char>::empty());
    } else {
        lemma_tag_text_leading(before, input.drop_last(), lead);
        assert((before + input).drop_last() =~= before + input.drop_last());
    }
}

/// A combining mark is part of a word: it never becomes an underscore.
pub proof fn law_combining_marks_are_kept(c: char)
    requires
        combining_mark(c),
    ensures
        !separates(c),
{
}

/// Case does not matter to a tag: ASCII text and its lowercase form are sanitized alike.
pub proof fn law_tag_ignores_ascii_case(input: Seq<char>, budget: nat, lead: bool)
    requires
        forall|i: int| 0 <= i < input.len() ==> is_ascii_char(#[trigger] input[i]),
    ensures
        sanitized_tag(input.map_values(|c: char| ascii_lowercase(c)), budget, lead)
            == sanitized_tag(input, budget, lead),
{
    lemma_tag_text_ignores_ascii_case(input, lead);
}

proof fn lemma_tag_text_ignores_ascii_case(input: Seq<char>, lead: bool)
    requires
        forall|i: int| 0 <= i < input.len() ==> is_ascii_char(#[trigger] input[i]),
    ensures
        tag_text(input.map_values(|c: char| ascii_lowercase(c)), lead) == tag_text(input, lead),
    decreases input.len(),
{
    let lower = input.map_values(|c: char| ascii_lowercase(c));
    if input.len() > 0 {
        lemma_tag_text_ignores_ascii_case(input.drop_last(), lead);
        assert(lower.drop_last() =~= input.drop_last().map_values(|c: char| ascii_lowercase(c)));
        let c = input[input.len() - 1];
        assert(is_ascii_char(c));
        lemma_ascii_case(c);
        assert(lower.last() == ascii_lowercase(c));
        if input.len() > 1 {
            let b = input[input.len() - 2];
            assert(is_ascii_char(b));
            lemma_ascii_case(b);
            assert(lower.drop_last().last() == ascii_lowercase(b));
            assert(input.drop_last().last() == b);
        }
    }
}

/// An ASCII character and its lowercase form are treated alike.
proof fn lemma_ascii_case(c: char)
    requires
        is_ascii_char(c),
    ensures
        separates(ascii_lowercase(c)) == separates(c),
        lowercase(ascii_lowercase(c)) == lowercase(c),
        alphabetic(ascii_lowercase(c)) == alphabetic(c),
{
}

/// A key that breaks no rule but that it has to start with a letter is kept whole: at most an
/// underscore goes in front of it.
proof fn lemma_unlettered_key(key: Seq<char>)
    requires
        conformant_tag(key, key.len(), false),
    ensures
        tag_text(key, true) == if alphabetic(key.first()) {
            key
        } else {
            seq!['_'] + key
        },
{
    if alphabetic(key.first()) {
        lemma_conformant_tag(key, key.len(), true);
    } else {
        lemma_conformant_tag(key, key.len(), false);
        assert(plain_tag_char(key[0]));
        lemma_lead_prepended(key, key.len() as int);
        assert(key.take(key.len() as int) =~= key);
    }
}

/// A text that starts with a word character other than a letter gets a leading underscore, and is
/// otherwise what it would be without one.
proof fn lemma_lead_prepended(key: Seq<char>, i: int)
    requires
        0 < i <= key.len(),
        lowercase(key[0]).len() > 0,
        !separates(key[0]),
        !alphabetic(key[0]),
    ensures
        tag_text(key.take(i), true) == seq!['_'] + tag_text(key.take(i), false),
        tag_text(key.take(i), false).len() > 0,
    decreases i,
{
    assert(key.take(i).drop_last() =~= key.take(i - 1));
    assert(key.take(i).last() == key[i - 1]);
    if i == 1 {
        reveal_with_fuel(tag_text, 2);
        assert(key.take(0) =~= Seq::<char>::empty());
        assert(tag_text(key.take(i), true) =~= seq!['_'] + tag_text(key.take(i), false));
    } else {
        lemma_lead_prepended(key, i - 1);
        assert(tag_text(key.take(i), true) =~= seq!['_'] + tag_text(key.take(i), false));
    }
}

/// Keys that break no rule but that they have to start with a letter stay distinct.
pub proof fn law_keys_stay_distinct(a: Seq<char>, b: Seq<char>, budget: nat)
    requires
        conformant_tag(a, a.len(), false),
        conformant_tag(b, b.len(), false),
        a.len() < budget,
        b.len() < budget,
        a != b,
    ensures
        sanitized_tag(a, budget, true) != sanitized_tag(b, budget, true),
{
    lemma_unlettered_key(a);
    lemma_unlettered_key(b);
    assert((seq!['_'] + a).drop_first() =~= a);
    assert((seq!['_'] + b).drop_first() =~= b);
    assert((seq!['_'] + a).first() == '_');
    assert((seq!['_'] + b).first() == '_');
}

/// Whether `text` is sanitized already, but for its length: settled words, joined by single
/// underscores, after an underscore exactly if they have to start with a letter and do not.
pub open spec fn is_settled_text(text: Seq<char>, lead: bool) -> bool {
    &&& forall|i: int| 0 <= i < text.len() ==> is_settled(#[trigger] text[i]) || text[i] == '_'
    &&& no_underscore_runs(text)
    &&& text.len() > 0 && text.first() != '_' && lead ==> alphabetic(text.first())
    &&& text.len() > 0 && text.first() == '_' ==> lead
    &&& text.len() > 1 && text.first() == '_' ==> !alphabetic(text[1])
}

/// The lowercase form of a word character is settled.
proof fn lemma_lowers_for_good(c: char)
    requires
        !separates(c),
        lowers_for_good(c),
    ensures
        lowercase(c).len() > 0,
        forall|i: int| 0 <= i < lowercase(c).len() ==> is_settled(#[trigger] lowercase(c)[i]),
        alphabetic(lowercase(c).first()) == alphabetic(c),
{
    if is_ascii_char(c) {
        lemma_ascii_case(c);
        assert(lowercase(c) =~= seq![ascii_lowercase(c)]);
    }
}

/// The text that a tag stands for is settled.
proof fn lemma_tag_text_settled(input: Seq<char>, lead: bool)
    requires
        all_lower_for_good(input),
    ensures
        is_settled_text(tag_text(input, lead), lead),
        tag_text(input, lead).len() > 0 ==> tag_text(input, lead).last() != '_',
    decreases input.len(),
{
    if input.len() > 0 {
        let before = input.drop_last();
        let c = input.last();
        let text = tag_text(before, lead);
        assert(lowers_for_good(input[input.len() - 1]));
        lemma_tag_text_settled(before, lead);
        if !separates(c) {
            lemma_lowers_for_good(c);
            let gap = joint(text, before, c, lead);
            let result = tag_text(input, lead);
            let start = text.len() + gap.len();
            assert forall|i: int| 0 <= i < result.len() implies (if i < text.len() {
                #[trigger] result[i] == text[i]
            } else if i < start {
                result[i] == '_'
            } else {
                is_settled(result[i]) && result[i] == lowercase(c)[i - start]
            }) by {}
            assert forall|i: int| 0 < i < result.len() implies !(result[i - 1] == '_'
                && #[trigger] result[i] == '_') by {
                if i < text.len() {
                    assert(result[i] == text[i] && result[i - 1] == text[i - 1]);
                } else if i < start {
                    assert(result[i - 1] == text.last());
                }
            }
            assert(result.last() == lowercase(c).last());
        }
    }
}

/// Every character of a sanitized tag element may stand in a tag and is its own lowercase form, and
/// an element that has to start with a letter starts with one or with an underscore.
pub proof fn law_tag_is_well_formed(input: Seq<char>, budget: nat, lead: bool)
    requires
        all_lower_for_good(input),
    ensures
        forall|i: int|
            0 <= i < sanitized_tag(input, budget, lead).len() ==> plain_tag_char(
                #[trigger] sanitized_tag(input, budget, lead)[i],
            ),
        lead && sanitized_tag(input, budget, lead).len() > 0 ==> sanitized_tag(
            input,
            budget,
            lead,
        ).first() == '_' || alphabetic(sanitized_tag(input, budget, lead).first()),
{
    let text = tag_text(input, lead);
    let result = sanitized_tag(input, budget, lead);
    lemma_tag_text_settled(input, lead);
    assert forall|i: int| 0 <= i < result.len() implies plain_tag_char(#[trigger] result[i]) by {
        assert(result[i] == text[i]);
    }
    if result.len() > 0 {
        assert(result.first() == text.first());
    }
}

/// Sanitizing a settled text changes nothing.
proof fn lemma_settled_text_kept(text: Seq<char>, lead: bool)
    requires
        is_settled_text(text, lead),
        text.len() > 0,
        text.last() != '_',
    ensures
        tag_text(text, lead) == text,
{
    if text.first() != '_' {
        lemma_conformant_tag(text, text.len(), lead);
    } else {
        let words = text.drop_first();
        assert(seq!['_'] + words =~= text);
        assert forall|i: int| 0 <= i < words.len() implies plain_tag_char(#[trigger] words[i]) by {
            assert(words[i] == text[i + 1]);
        }
        assert forall|i: int| 0 < i < words.len() implies !(words[i - 1] == '_'
            && #[trigger] words[i] == '_') by {
            assert(words[i] == text[i + 1] && words[i - 1] == text[i]);
        }
        assert(!(text[0] == '_' && text[1] == '_'));
        lemma_unlettered_key(words);
        lemma_tag_text_leading(seq!['_'], words, lead);
    }
}

/// Sanitizing a sanitized element changes nothing, and a prepended underscore is not doubled. The
/// one element to which this does not apply is a prepended underscore by itself.
pub proof fn law_sanitizing_twice_changes_nothing(input: Seq<char>, budget: nat, lead: bool)
    requires
        all_lower_for_good(input),
        sanitized_tag(input, budget, lead).len() > 0,
        sanitized_tag(input, budget, lead).last() != '_',
    ensures
        sanitized_tag(sanitized_tag(input, budget, lead), budget, lead) == sanitized_tag(
            input,
            budget,
            lead,
        ),
{
    let text = tag_text(input, lead);
    let result = sanitized_tag(input, budget, lead);
    lemma_tag_text_settled(input, lead);
    assert forall|i: int| 0 <= i < result.len() implies is_settled(#[trigger] result[i])
        || result[i] == '_' by {
        assert(result[i] == text[i]);
    }
    assert forall|i: int| 0 < i < result.len() implies !(result[i - 1] == '_'
        && #[trigger] result[i] == '_') by {
        assert(result[i] == text[i] && result[i - 1] == text[i - 1]);
    }
    lemma_settled_text_kept(result, lead);
}

/// Only a conformant element is kept as it is, unless it starts with an underscore: whatever else
/// breaks a rule is rewritten.
pub proof fn law_only_conformant_tags_are_kept(input: Seq<char>, budget: nat, lead: bool)
    requires
        all_lower_for_good(input),
        input.len() > 0,
        input.first() != '_',
        sanitized_tag(input, budget, lead) == input,
    ensures
        conformant_tag(input, budget, lead),
{
    let text = tag_text(input, lead);
    lemma_tag_text_settled(input, lead);
    assert forall|i: int| 0 <= i < input.len() implies plain_tag_char(#[trigger] input[i]) by {
        assert(input[i] == text[i]);
    }
    assert forall|i: int| 0 < i < input.len() implies !(input[i - 1] == '_'
        && #[trigger] input[i] == '_') by {
        assert(input[i] == text[i] && input[i - 1] == text[i - 1]);
    }
    if cut(text, budget).len() < text.len() && cut(text, budget).last() == '_' && budget > 1 {
        assert(!(text[budget - 2] == '_' && text[budget - 1] == '_'));
    }
}

/// A sanitized tag has at most two hundred characters.
pub proof fn law_tag_within_limit(label: LabelView)
    ensures
        clean_tag(label).len() <= MAX_TAG_LENGTH == 200,
{
}

/// A sanitized tag is the key by itself, or the key, a colon and something of the value. The value
/// is never promoted into the key's place, and no colon is left dangling.
pub proof fn law_tag_shape(label: LabelView)
    ensures
        ({
            let key = sanitized_tag(label.key, MAX_TAG_LENGTH as nat, true);
            ||| clean_tag(label) == key
            ||| key.len() > 0 && exists|value: Seq<char>|
                #![trigger key.push(':') + value]
                value.len() > 0 && clean_tag(label) == key.push(':') + value
        }),
        sanitized_tag(label.key, MAX_TAG_LENGTH as nat, true).len() == 0 ==> clean_tag(label).len()
            == 0,
{
}

/// A key that leaves no room for a colon and a character of the value is written by itself.
pub proof fn law_value_without_room_is_omitted(label: LabelView)
    requires
        sanitized_tag(label.key, MAX_TAG_LENGTH as nat, true).len() + 2 > MAX_TAG_LENGTH,
    ensures
        clean_tag(label) == sanitized_tag(label.key, MAX_TAG_LENGTH as nat, true),
{
}

/// The tags of two lists of labels.
pub proof fn lemma_tag_list_concat(a: Seq<LabelView>, b: Seq<LabelView>, sanitize: bool)
    ensures
        tag_list(a + b, sanitize) == tag_list(a, sanitize) + tag_list(b, sanitize),
    decreases b.len(),
{
    if b.len() == 0 {
        assert(a + b =~= a);
        assert(tag_list(a, sanitize) + tag_list(b, sanitize) =~= tag_list(a, sanitize));
    } else {
        lemma_tag_list_concat(a, b.drop_last(), sanitize);
        assert((a + b).drop_last() =~= a + b.drop_last());
        assert(tag_list(a + b, sanitize) =~= tag_list(a, sanitize) + tag_list(b, sanitize));
    }
}

/// A label for which there is no tag leaves no trace, wherever among the labels it stands.
pub proof fn law_label_without_tag_leaves_no_trace(
    before: Seq<LabelView>,
    label: LabelView,
    after: Seq<LabelView>,
    sanitize: bool,
)
    requires
        tag(label, sanitize).len() == 0,
    ensures
        tag_list(before.push(label) + after, sanitize) == tag_list(before + after, sanitize),
{
    lemma_tag_list_concat(before.push(label), after, sanitize);
    lemma_tag_list_concat(before, after, sanitize);
    assert(before.push(label).drop_last() =~= before);
}

/// Whether every character of `text` may stand in a metric name.
pub open spec fn only_name_chars(text: Seq<char>) -> bool {
    forall|i: int| 0 <= i < text.len() ==> plain_name_char(#[trigger] text[i])
}

/// A sanitized name element holds nothing that a name may not hold.
pub proof fn law_name_charset(input: Seq<char>, budget: nat, lead: bool)
    ensures
        only_name_chars(sanitized_name(input, budget, lead)),
{
    let text = name_text(input, lead);
    let result = sanitized_name(input, budget, lead);
    let mapped = input.map_values(|c: char| name_char(c));
    assert forall|i: int| 0 <= i < result.len() implies plain_name_char(#[trigger] result[i]) by {
        assert(result[i] == text[i]);
        if text.len() == mapped.len() {
            assert(text[i] == mapped[i]);
        } else if i > 0 {
            assert(text[i] == mapped[i - 1]);
        }
    }
}

/// Names are rewritten character by character: none is dropped, added or merged, as far as the
/// budget goes, and those that may stand in a name are kept as they are, case included.
pub proof fn law_name_one_for_one(input: Seq<char>, budget: nat, i: int)
    requires
        0 <= i < input.len(),
        i < budget,
    ensures
        sanitized_name(input, budget, false).len() == if input.len() <= budget {
            input.len()
        } else {
            budget
        },
        sanitized_name(input, budget, false)[i] == if plain_name_char(input[i]) {
            input[i]
        } else {
            '_'
        },
{
}

/// Names that break no rule but that they have to start with a letter stay distinct.
pub proof fn law_names_stay_distinct(a: Seq<char>, b: Seq<char>, budget: nat)
    requires
        conformant_name(a, budget, false),
        conformant_name(b, budget, false),
        a.len() < budget,
        b.len() < budget,
        a != b,
    ensures
        sanitized_name(a, budget, true) != sanitized_name(b, budget, true),
{
    lemma_unlettered_name(a, budget);
    lemma_unlettered_name(b, budget);
    assert((seq!['_'] + a).drop_first() =~= a);
    assert((seq!['_'] + b).drop_first() =~= b);
    assert((seq!['_'] + a).first() == '_');
    assert((seq!['_'] + b).first() == '_');
}

/// A name that breaks no rule but that it has to start with a letter is kept whole: at most an
/// underscore goes in front of it.
proof fn lemma_unlettered_name(name: Seq<char>, budget: nat)
    requires
        conformant_name(name, budget, false),
        name.len() < budget,
    ensures
        sanitized_name(name, budget, true) == if name.len() == 0 || is_ascii_letter(name.first()) {
            name
        } else {
            seq!['_'] + name
        },
{
    assert(name.map_values(|c: char| name_char(c)) =~= name);
}

/// A prefix of which nothing is left takes nothing from the name, not even its leading underscore.
pub proof fn law_empty_prefix_is_ignored(prefix: Seq<char>, name: Seq<char>)
    requires
        clean_prefix(Some(prefix)).len() == 0,
    ensures
        clean_name(Some(prefix), name) == clean_name(None, name),
{
    assert(clean_prefix(Some(prefix)) =~= clean_prefix(None));
}

/// A metric name, its prefix included, holds nothing that a name may not hold, is at most two
/// hundred characters long, and starts with a letter or an underscore.
pub proof fn law_full_name(prefix: Option<Seq<char>>, name: Seq<char>)
    ensures
        only_name_chars(clean_name(prefix, name)),
        clean_name(prefix, name).len() <= MAX_METRIC_NAME_LENGTH == 200,
        clean_name(prefix, name).len() > 0 ==> is_ascii_letter(clean_name(prefix, name).first())
            || clean_name(prefix, name).first() == '_',
{
    let front = clean_prefix(prefix);
    let rest = (MAX_METRIC_NAME_LENGTH - front.len()) as nat;
    let element = sanitized_name(name, rest, front.len() == 0);
    law_name_charset(name, rest, front.len() == 0);
    if let Some(prefix) = prefix {
        law_name_charset(prefix, MAX_METRIC_NAME_LENGTH as nat, true);
        let cleaned = sanitized_name(prefix, MAX_METRIC_NAME_LENGTH as nat, true);
        if cleaned.len() > 0 {
            lemma_name_start(prefix, MAX_METRIC_NAME_LENGTH as nat);
            assert(front.first() == cleaned.first());
        }
    }
    if front.len() == 0 && element.len() > 0 {
        lemma_name_start(name, rest);
    }
    let result = clean_name(prefix, name);
    assert forall|i: int| 0 <= i < result.len() implies plain_name_char(#[trigger] result[i]) by {
        if i < front.len() {
            assert(result[i] == front[i]);
        } else {
            assert(result[i] == element[i - front.len()]);
        }
    }
    if front.len() > 0 {
        assert(result.first() == front.first());
    } else {
        assert(result =~= element);
    }
}

/// How a name element starts that has to start with a letter.
proof fn lemma_name_start(input: Seq<char>, budget: nat)
    requires
        sanitized_name(input, budget, true).len() > 0,
    ensures
        is_ascii_letter(sanitized_name(input, budget, true).first()) || sanitized_name(
            input,
            budget,
            true,
        ).first() == '_',
{
}

} // verus!

//! Datadog's rules for tags and metric names.

use vstd::prelude::*;
use vstd::utf8::*;

use crate::unicode::{
    alphabetic, alphanumeric, ascii_lowercase, ascii_lowercase_byte, is_ascii_digit,
    is_ascii_letter, is_ascii_upper, lowercase, to_lowercase,
};
use crate::utf8::{
    append, lemma_ascii_bytes, lemma_char_nonnegative, lemma_encode_concat, lemma_encode_last,
    lemma_encode_len, lemma_encode_one, lemma_encode_push, push_char,
};

verus! {

/// The first `budget` items of `items`, or all of them if they are fewer.
pub open spec fn cut(items: Seq<char>, budget: nat) -> Seq<char> {
    if items.len() <= budget {
        items
    } else {
        items.take(budget as int)
    }
}

/// Characters allowed verbatim in a tag, beyond alphanumerics and combining marks.
#[verifier::allow_in_spec]
pub fn is_allowed_tag_punctuation(c: char) -> bool
    returns
        c == '_' || c == '-' || c == ':' || c == '.' || c == '/',
{
    matches!(c, '_' | '-' | ':' | '.' | '/')
}

/// Characters allowed verbatim in a metric name, beyond ASCII alphanumerics.
#[verifier::allow_in_spec]
pub fn is_allowed_name_punctuation(c: char) -> bool
    returns
        c == '_' || c == '.',
{
    matches!(c, '_' | '.')
}

/// Whether `c` belongs to one of Unicode's general-purpose blocks of combining marks.
pub open spec fn combining_mark(c: char) -> bool {
    let scalar = c as u32;
    ||| 0x0300 <= scalar <= 0x036F
    ||| 0x1AB0 <= scalar <= 0x1AFF
    ||| 0x1DC0 <= scalar <= 0x1DFF
    ||| 0x20D0 <= scalar <= 0x20F0
    ||| 0xFE20 <= scalar <= 0xFE2F
}

/// Returns `true` if `c` is a Unicode combining mark.
///
/// Combining marks come with decomposed text (`e` followed by U+0301 for `é`). They are not
/// alphanumeric, so they have to be allowed by name to survive in a tag. This covers the
/// general-purpose combining blocks rather than every script-specific mark.
pub fn is_combining_mark(c: char) -> (is_mark: bool)
    ensures
        is_mark == combining_mark(c),
{
    matches!(
        c as u32,
        0x0300..=0x036F
        | 0x1AB0..=0x1AFF
        | 0x1DC0..=0x1DFF
        | 0x20D0..=0x20F0
        | 0xFE20..=0xFE2F
    )
}

/// Whether `c` separates the words of a tag: an underscore, or a character that no tag may hold.
pub open spec fn separates(c: char) -> bool {
    ||| c == '_'
    ||| !(alphanumeric(c) || is_allowed_tag_punctuation(c) || combining_mark(c))
}

/// Whether `text` holds nothing of which a tag could be made.
pub open spec fn all_separate(text: Seq<char>) -> bool {
    forall|i: int| 0 <= i < text.len() ==> separates(#[trigger] text[i])
}

/// What stands between `text`, made of the characters of `before`, and the next word character `c`.
///
/// Words are joined by one underscore. A tag that has to start with a letter and does not is given
/// a leading underscore.
pub open spec fn joint(text: Seq<char>, before: Seq<char>, c: char, lead: bool) -> Seq<char> {
    if text.len() > 0 {
        if separates(before.last()) {
            seq!['_']
        } else {
            Seq::empty()
        }
    } else if lead && !alphabetic(c) {
        seq!['_']
    } else {
        Seq::empty()
    }
}

/// The tag text that `input` stands for, however long: its words in lowercase, joined by single
/// underscores. With `lead` set, an underscore goes in front of a text that would not start with a
/// letter.
pub open spec fn tag_text(input: Seq<char>, lead: bool) -> Seq<char>
    decreases input.len(),
{
    if input.len() == 0 {
        Seq::empty()
    } else {
        let before = input.drop_last();
        let text = tag_text(before, lead);
        let c = input.last();
        if separates(c) {
            text
        } else {
            text + joint(text, before, c, lead) + lowercase(c)
        }
    }
}

/// What is left of a text that was cut to `kept`: not an underscore at its end, unless that
/// underscore is all there is.
pub open spec fn trimmed(kept: Seq<char>) -> Seq<char> {
    if kept.len() > 1 && kept.last() == '_' {
        kept.drop_last()
    } else {
        kept
    }
}

/// The tag element that `input` is sanitized to, within `budget` characters. Where the text exceeds
/// that, an underscore between two words that the cut puts last is trimmed.
pub open spec fn sanitized_tag(input: Seq<char>, budget: nat, lead: bool) -> Seq<char> {
    let text = tag_text(input, lead);
    let kept = cut(text, budget);
    if kept.len() < text.len() {
        trimmed(kept)
    } else {
        kept
    }
}

/// Whether `c` may stand in a tag and is its own lowercase form.
pub open spec fn plain_tag_char(c: char) -> bool {
    &&& alphanumeric(c) || is_allowed_tag_punctuation(c) || combining_mark(c)
    &&& lowercase(c) == seq![c]
}

/// Returns `true` if `c` may stand in a tag and is its own lowercase form.
pub(crate) fn is_plain_tag_char(c: char) -> (plain: bool)
    ensures
        plain == plain_tag_char(c),
{
    if !(c.is_alphanumeric() || is_allowed_tag_punctuation(c) || is_combining_mark(c)) {
        return false;
    }
    proof {
        lemma_char_nonnegative(c);
    }
    if c <= '\x7f' {
        assert(seq![ascii_lowercase(c)][0] == ascii_lowercase(c) && seq![c][0] == c);
        !is_ascii_upper(c)
    } else {
        let lowered = to_lowercase(c);
        assert(seq![c][0] == c);
        assert(lowered@.len() == 1 && lowered@[0] == c ==> lowered@ =~= seq![c]);
        lowered.len() == 1 && lowered[0] == c
    }
}

/// Whether `input` satisfies every tag rule already.
pub open spec fn conformant_tag(input: Seq<char>, budget: nat, lead: bool) -> bool {
    &&& 0 < input.len() <= budget
    &&& input.first() != '_'
    &&& input.last() != '_'
    &&& lead ==> alphabetic(input.first())
    &&& forall|i: int| 0 <= i < input.len() ==> plain_tag_char(#[trigger] input[i])
    &&& forall|i: int| 0 < i < input.len() ==> !(input[i - 1] == '_' && #[trigger] input[i] == '_')
}

/// The text of the first characters of `input` starts the text of the whole.
proof fn lemma_tag_text_grows(input: Seq<char>, k: int, lead: bool)
    requires
        0 <= k <= input.len(),
    ensures
        tag_text(input.take(k), lead).is_prefix_of(tag_text(input, lead)),
    decreases input.len(),
{
    if k == input.len() {
        assert(input.take(k) =~= input);
    } else {
        lemma_tag_text_grows(input.drop_last(), k, lead);
        assert(input.drop_last().take(k) =~= input.take(k));
    }
}

/// One more character separates if it does so itself.
proof fn lemma_all_separate_push(text: Seq<char>, c: char)
    ensures
        all_separate(text.push(c)) == (all_separate(text) && separates(c)),
{
    if all_separate(text.push(c)) {
        assert(text.push(c)[text.len() as int] == c);
        assert forall|i: int| 0 <= i < text.len() implies separates(#[trigger] text[i]) by {
            assert(text.push(c)[i] == text[i]);
        }
    }
}

/// Where the text of the first characters of `input` exceeds `budget` characters, it is cut to what
/// the text of the whole of `input` is cut to.
proof fn lemma_cut_at(input: Seq<char>, k: int, lead: bool, budget: nat)
    requires
        0 <= k <= input.len(),
        tag_text(input.take(k), lead).len() > budget,
    ensures
        tag_text(input, lead).len() > budget,
        cut(tag_text(input, lead), budget) == cut(tag_text(input.take(k), lead), budget),
{
    lemma_tag_text_grows(input, k, lead);
    assert(cut(tag_text(input, lead), budget) =~= cut(tag_text(input.take(k), lead), budget));
}

/// The text of the first `i` characters of a conformant tag.
proof fn lemma_conformant_prefix(input: Seq<char>, budget: nat, lead: bool, i: int)
    requires
        conformant_tag(input, budget, lead),
        0 <= i <= input.len(),
    ensures
        tag_text(input.take(i), lead) == if i > 0 && input[i - 1] == '_' {
            input.take(i - 1)
        } else {
            input.take(i)
        },
    decreases i,
{
    if i == 0 {
        assert(tag_text(input.take(i), lead) =~= input.take(i));
    } else {
        lemma_conformant_prefix(input, budget, lead, i - 1);
        let c = input[i - 1];
        assert(input.take(i).drop_last() =~= input.take(i - 1));
        assert(plain_tag_char(c));
        if c != '_' {
            if i > 1 {
                assert(plain_tag_char(input[i - 2]));
                if i > 2 {
                    assert(!(input[i - 3] == '_' && input[i - 2] == '_'));
                }
                assert(input.take(i - 1).last() == input[i - 2]);
            }
            assert(tag_text(input.take(i), lead) =~= input.take(i));
        }
    }
}

/// A conformant tag is sanitized to itself.
pub proof fn lemma_conformant_tag(input: Seq<char>, budget: nat, lead: bool)
    requires
        conformant_tag(input, budget, lead),
    ensures
        tag_text(input, lead) == input,
        sanitized_tag(input, budget, lead) == input,
{
    lemma_conformant_prefix(input, budget, lead, input.len() as int);
    assert(input.take(input.len() as int) =~= input);
}

/// Returns the length of `input`, in characters, if it already satisfies every tag rule, and `None`
/// if it needs to be rewritten.
///
/// A tag that is already conformant can be copied in bulk instead of being reassembled one
/// character at a time.
pub fn conformant_tag_len(
    input: &str,
    budget: usize,
    require_leading_alphabetic: bool,
) -> (len: Option<usize>)
    requires
        input@.len() > 0,
    ensures
        len == if conformant_tag(input@, budget as nat, require_leading_alphabetic) {
            Some(input@.len() as usize)
        } else {
            None
        },
{
    let mut len: usize = 0;
    let mut last_was_underscore = false;
    for character in it: input.chars()
        invariant
            it.seq() == input@,
            len == it.index(),
            len <= budget,
            last_was_underscore == (len > 0 && input@[len - 1] == '_'),
            len > 0 ==> input@.first() != '_' && (require_leading_alphabetic ==> alphabetic(
                input@.first(),
            )),
            forall|i: int| 0 <= i < len ==> plain_tag_char(#[trigger] input@[i]),
            forall|i: int| 0 < i < len ==> !(input@[i - 1] == '_' && #[trigger] input@[i] == '_'),
    {
        assert(input@[len as int] == character);
        if len == budget || !is_plain_tag_char(character) {
            return None;
        }
        if character == '_' && (len == 0 || last_was_underscore) {
            return None;
        }
        if len == 0 && require_leading_alphabetic && !character.is_alphabetic() {
            return None;
        }
        last_was_underscore = character == '_';
        len += 1;
    }
    if last_was_underscore {
        None
    } else {
        Some(len)
    }
}

/// Appends as many of `chars` to `buf` as fit in `room` characters, and returns how many did.
fn write_chars(buf: &mut Vec<u8>, chars: &Vec<char>, room: usize) -> (written: usize)
    ensures
        written == cut(chars@, room as nat).len(),
        final(buf)@ == old(buf)@ + encode_utf8(cut(chars@, room as nat)),
{
    let mut written: usize = 0;
    assert(buf@ =~= old(buf)@ + encode_utf8(chars@.take(0)));
    while written < chars.len() && written < room
        invariant
            written <= chars@.len(),
            written <= room,
            buf@ == old(buf)@ + encode_utf8(chars@.take(written as int)),
        decreases chars@.len() - written,
    {
        let ghost before = chars@.take(written as int);
        push_char(buf, chars[written]);
        proof {
            lemma_encode_push(before, chars@[written as int]);
            assert(chars@.take(written + 1) =~= before.push(chars@[written as int]));
            assert(buf@ =~= old(buf)@ + encode_utf8(chars@.take(written + 1)));
        }
        written += 1;
    }
    assert(chars@.take(written as int) =~= cut(chars@, room as nat));
    written
}

/// Writes a word character in lowercase, after an underscore if `underscore` is set, as far as it
/// fits in `room` characters. Returns the number of characters written, and whether that was all.
fn write_word_char(buf: &mut Vec<u8>, c: char, underscore: bool, room: usize) -> (written: (
    usize,
    bool,
))
    ensures
        ({
            let gap = if underscore {
                seq!['_']
            } else {
                Seq::empty()
            };
            let whole = gap + lowercase(c);
            let piece = cut(whole, room as nat);
            &&& written.0 == piece.len()
            &&& written.1 == (whole.len() <= room)
            &&& room > 0 ==> written.0 > 0
            &&& final(buf)@ == old(buf)@ + encode_utf8(piece)
        }),
{
    let mut written: usize = 0;
    let ghost gap: Seq<char> = if underscore {
        seq!['_']
    } else {
        Seq::empty()
    };
    let ghost whole = gap + lowercase(c);
    if underscore {
        if room == 0 {
            assert(cut(whole, 0) =~= Seq::<char>::empty());
            assert(buf@ =~= old(buf)@ + encode_utf8(Seq::<char>::empty()));
            return (0, false);
        }
        buf.push('_' as u8);
        written = 1;
        proof {
            lemma_encode_one('_');
        }
    }
    assert(buf@ =~= old(buf)@ + encode_utf8(gap));
    proof {
        lemma_char_nonnegative(c);
    }
    if c <= '\x7f' {
        if written == room {
            assert(gap =~= cut(whole, room as nat));
            return (written, false);
        }
        buf.push(ascii_lowercase_byte(c));
        proof {
            lemma_encode_push(gap, ascii_lowercase(c));
            assert(gap.push(ascii_lowercase(c)) =~= cut(whole, room as nat));
            assert(buf@ =~= old(buf)@ + encode_utf8(gap.push(ascii_lowercase(c))));
        }
        (written + 1, true)
    } else {
        let lowered = to_lowercase(c);
        let ghost fitting = cut(lowered@, (room - written) as nat);
        let count = write_chars(buf, &lowered, room - written);
        proof {
            lemma_encode_concat(gap, fitting);
            assert(gap + fitting =~= cut(whole, room as nat));
            assert(buf@ =~= old(buf)@ + encode_utf8(gap + fitting));
        }
        (written + count, count == lowered.len())
    }
}

/// Takes a trailing underscore back from the `written` characters at the end of `buf`, unless it is
/// the only one of them, and returns how many are left.
fn trim_cut(
    buf: &mut Vec<u8>,
    written: usize,
    Ghost(before): Ghost<Seq<u8>>,
    Ghost(kept): Ghost<Seq<char>>,
) -> (left: usize)
    requires
        written == kept.len(),
        old(buf)@ == before + encode_utf8(kept),
    ensures
        left == trimmed(kept).len(),
        final(buf)@ == before + encode_utf8(trimmed(kept)),
{
    if written <= 1 {
        return written;
    }
    proof {
        lemma_encode_last(kept, '_');
    }
    if buf[buf.len() - 1] == '_' as u8 {
        buf.pop();
        assert(buf@ =~= before + encode_utf8(kept.drop_last()));
        written - 1
    } else {
        written
    }
}

/// Writes `input` to `buf` as a sanitized tag element -- either a tag key or a tag value -- and
/// returns the number of characters written.
///
/// At most `budget` characters are written. Invalid characters are replaced with underscores, runs
/// of underscores are collapsed, and leading and trailing underscores are trimmed. Trimming happens
/// per element rather than across the whole tag so that `env` and `Env ` don't map to the two
/// distinct tag names `env` and `env_`. An underscore between two words is trimmed too where the
/// second one does not fit. Nothing is written exactly if there is no room at all, or nothing of
/// which a tag could be made.
///
/// When `require_leading_alphabetic` is set -- the case for tag keys, since Datadog requires a tag
/// to start with a letter -- an underscore is *prepended* rather than the offending character being
/// dropped or replaced, so that keys such as `2xx` and `4xx` stay distinct. With room for one
/// character, that underscore is all that is written.
pub fn write_sanitized_tag(
    buf: &mut Vec<u8>,
    input: &str,
    budget: usize,
    require_leading_alphabetic: bool,
) -> (written: usize)
    ensures
        written == sanitized_tag(input@, budget as nat, require_leading_alphabetic).len(),
        final(buf)@ == old(buf)@ + encode_utf8(
            sanitized_tag(input@, budget as nat, require_leading_alphabetic),
        ),
        written == 0 <==> budget == 0 || all_separate(input@),
{
    let lead = require_leading_alphabetic;
    if budget == 0 || input.is_empty() {
        proof {
            assert(sanitized_tag(input@, budget as nat, lead) =~= Seq::<char>::empty());
            assert(buf@ =~= old(buf)@ + encode_utf8(Seq::<char>::empty()));
        }
        return 0;
    }
    if let Some(len) = conformant_tag_len(input, budget, lead) {
        proof {
            lemma_conformant_tag(input@, budget as nat, lead);
            assert(plain_tag_char(input@[0]) && !separates(input@[0]));
        }
        append(buf, input.as_bytes());
        return len;
    }
    let mut written: usize = 0;
    let mut pending_underscore = false;
    let ghost mut out: Seq<char> = Seq::empty();
    assert(input@.take(0) =~= Seq::<char>::empty());
    assert(buf@ =~= old(buf)@ + encode_utf8(out));
    for character in it: input.chars()
        invariant
            it.seq() == input@,
            lead == require_leading_alphabetic,
            written == out.len(),
            written <= budget,
            budget > 0,
            written == 0 <==> all_separate(input@.take(it.index() as int)),
            out == tag_text(input@.take(it.index() as int), lead),
            buf@ == old(buf)@ + encode_utf8(out),
            pending_underscore == (written > 0 && it.index() > 0 && separates(
                input@[it.index() - 1],
            )),
    {
        let ghost i = it.index() as int;
        let ghost before = input@.take(i);
        let ghost through = input@.take(i + 1);
        let ghost text = out;
        proof {
            assert(through.drop_last() =~= before);
            assert(through.last() == character);
            lemma_all_separate_push(before, character);
            assert(through =~= before.push(character));
            if i > 0 {
                assert(before.last() == input@[i - 1]);
            }
        }
        // Classify the input character rather than each character of its lowercase form, so that a
        // base character carries its combining marks along with it.
        let allowed = character.is_alphanumeric() || is_allowed_tag_punctuation(character)
            || is_combining_mark(character);

        // Defer underscores instead of writing them, which collapses runs and trims a trailing run.
        // Nothing is pending while the element is still empty, which trims a leading run.
        if !allowed || character == '_' {
            pending_underscore = written > 0;
        } else {
            let underscore = pending_underscore || (written == 0 && lead
                && !character.is_alphabetic());
            let ghost gap = joint(text, before, character, lead);
            let ghost whole = gap + lowercase(character);
            let ghost piece = cut(whole, (budget - written) as nat);
            assert(gap =~= if underscore {
                seq!['_']
            } else {
                Seq::empty()
            });
            let (count, complete) = write_word_char(buf, character, underscore, budget - written);
            pending_underscore = false;
            written += count;
            proof {
                lemma_encode_concat(text, piece);
                out = text + piece;
                assert(tag_text(through, lead) =~= text + whole);
                assert(out =~= cut(tag_text(through, lead), budget as nat));
                assert(buf@ =~= old(buf)@ + encode_utf8(out));
            }
            if !complete {
                proof {
                    lemma_cut_at(input@, i + 1, lead, budget as nat);
                    assert(!separates(input@[i]));
                }
                return trim_cut(buf, written, Ghost(old(buf)@), Ghost(out));
            }
        }
    }
    assert(input@.take(input@.len() as int) =~= input@);
    written
}

/// Whether `c` may stand in a metric name.
pub open spec fn plain_name_char(c: char) -> bool {
    is_ascii_letter(c) || is_ascii_digit(c) || is_allowed_name_punctuation(c)
}

/// What stands for `c` in a metric name: `c` itself if it may, an underscore otherwise.
pub open spec fn name_char(c: char) -> char {
    if plain_name_char(c) {
        c
    } else {
        '_'
    }
}

/// The metric name that `input` stands for, however long: each character on its own, after an
/// underscore if `lead` is set and `input` does not start with a letter.
pub open spec fn name_text(input: Seq<char>, lead: bool) -> Seq<char> {
    let mapped = input.map_values(|c: char| name_char(c));
    if lead && input.len() > 0 && !is_ascii_letter(input.first()) {
        seq!['_'] + mapped
    } else {
        mapped
    }
}

/// The metric name element that `input` is sanitized to, within `budget` characters.
pub open spec fn sanitized_name(input: Seq<char>, budget: nat, lead: bool) -> Seq<char> {
    cut(name_text(input, lead), budget)
}

/// Whether `input` satisfies every metric name rule already.
pub open spec fn conformant_name(input: Seq<char>, budget: nat, lead: bool) -> bool {
    &&& input.len() <= budget
    &&& lead ==> input.len() > 0 && is_ascii_letter(input.first())
    &&& forall|i: int| 0 <= i < input.len() ==> plain_name_char(#[trigger] input[i])
}

/// A conformant name is sanitized to itself.
pub proof fn lemma_conformant_name(input: Seq<char>, budget: nat, lead: bool)
    requires
        conformant_name(input, budget, lead),
    ensures
        sanitized_name(input, budget, lead) == input,
{
    assert(input.map_values(|c: char| name_char(c)) =~= input);
}

/// Returns the length of `input` if it already satisfies every metric name rule, and `None` if it
/// needs to be rewritten.
pub fn conformant_name_len(
    input: &str,
    budget: usize,
    require_leading_alphabetic: bool,
) -> (len: Option<usize>)
    requires
        require_leading_alphabetic ==> input@.len() > 0,
    ensures
        len == if conformant_name(input@, budget as nat, require_leading_alphabetic) {
            Some(input@.len() as usize)
        } else {
            None
        },
{
    let bytes = input.as_bytes();
    let ghost conformant = conformant_name(input@, budget as nat, require_leading_alphabetic);
    proof {
        lemma_encode_len(input@);
        if conformant {
            assert forall|i: int| 0 <= i < input@.len() implies '\0' <= #[trigger] input@[i]
                <= '\u{7f}' by {
                assert(plain_name_char(input@[i]));
            }
            is_ascii_chars_encode_utf8(input@);
            assert forall|i: int| 0 <= i < input@.len() implies #[trigger] bytes@[i]
                == input@[i] as u8 by {}
        }
    }
    if bytes.len() > budget {
        return None;
    }
    if require_leading_alphabetic && !(('a' as u8 <= bytes[0] && bytes[0] <= 'z' as u8) || ('A'
        as u8 <= bytes[0] && bytes[0] <= 'Z' as u8)) {
        return None;
    }
    let mut i: usize = 0;
    while i < bytes.len()
        invariant
            i <= bytes@.len(),
            bytes@ == encode_utf8(input@),
            conformant == conformant_name(input@, budget as nat, require_leading_alphabetic),
            conformant ==> input@.len() == bytes@.len() && forall|j: int|
                0 <= j < input@.len() ==> #[trigger] bytes@[j] == input@[j] as u8,
            forall|j: int|
                0 <= j < i ==> #[trigger] bytes@[j] < 0x80 && plain_name_char(bytes@[j] as char),
        decreases bytes@.len() - i,
    {
        let byte: u8 = bytes[i];
        proof {
            if conformant {
                assert(plain_name_char(input@[i as int]));
            }
        }
        if !(('a' as u8 <= byte && byte <= 'z' as u8) || ('A' as u8 <= byte && byte <= 'Z' as u8)
            || ('0' as u8 <= byte && byte <= '9' as u8) || byte == '_' as u8 || byte
            == '.' as u8) {
            return None;
        }
        i += 1;
    }
    proof {
        lemma_ascii_bytes(input@);
        is_ascii_chars_encode_utf8(input@);
        assert forall|j: int| 0 <= j < input@.len() implies plain_name_char(
            #[trigger] input@[j],
        ) by {
            assert(bytes@[j] == input@[j] as u8);
        }
        if input@.len() > 0 {
            assert(bytes@[0] == input@[0] as u8);
        }
    }
    Some(bytes.len())
}

/// Writes `input` to `buf` as a sanitized metric name element -- either the global prefix or the
/// metric name itself -- and returns the number of characters written.
///
/// Datadog's rules for metric names are not the rules for tags: names are case-sensitive, ASCII
/// only, and may contain only alphanumerics, underscores and periods. So this preserves case, and
/// replaces every other character -- including any non-ASCII character -- one-for-one with an
/// underscore. Replacements are deliberately not collapsed, so that a name cannot lose an
/// underscore the caller wrote on purpose.
pub fn write_sanitized_name(
    buf: &mut Vec<u8>,
    input: &str,
    budget: usize,
    require_leading_alphabetic: bool,
) -> (written: usize)
    ensures
        written == sanitized_name(input@, budget as nat, require_leading_alphabetic).len(),
        final(buf)@ == old(buf)@ + encode_utf8(
            sanitized_name(input@, budget as nat, require_leading_alphabetic),
        ),
{
    let lead = require_leading_alphabetic;
    if budget == 0 || input.is_empty() {
        proof {
            assert(sanitized_name(input@, budget as nat, lead) =~= Seq::<char>::empty());
            assert(buf@ =~= old(buf)@ + encode_utf8(Seq::<char>::empty()));
        }
        return 0;
    }
    if let Some(len) = conformant_name_len(input, budget, lead) {
        proof {
            lemma_conformant_name(input@, budget as nat, lead);
        }
        append(buf, input.as_bytes());
        return len;
    }
    let mut written: usize = 0;
    let ghost full = name_text(input@, lead);
    let ghost extra: int = full.len() - input@.len();
    assert(buf@ =~= old(buf)@ + encode_utf8(full.take(0)));
    for character in it: input.chars()
        invariant
            it.seq() == input@,
            budget > 0,
            lead == require_leading_alphabetic,
            full == name_text(input@, lead),
            extra == full.len() - input@.len(),
            written <= budget,
            written <= full.len(),
            written == if it.index() == 0 {
                0
            } else {
                it.index() + extra
            },
            buf@ == old(buf)@ + encode_utf8(full.take(written as int)),
    {
        let ghost i = it.index() as int;
        if written == budget {
            assert(full.take(written as int) =~= sanitized_name(input@, budget as nat, lead));
            return written;
        }
        if written == 0 && lead && !is_ascii_letter(character) {
            proof {
                lemma_encode_push(full.take(0), '_');
                assert(full.take(1) =~= full.take(0).push('_'));
            }
            buf.push('_' as u8);
            written += 1;
            assert(buf@ =~= old(buf)@ + encode_utf8(full.take(1)));
            if written == budget {
                assert(full.take(written as int) =~= sanitized_name(input@, budget as nat, lead));
                return written;
            }
        }
        let byte: u8 = if is_ascii_letter(character) || is_ascii_digit(character)
            || is_allowed_name_punctuation(character) {
            character as u8
        } else {
            '_' as u8
        };
        proof {
            assert(written == i + extra);
            assert(full[written as int] == name_char(input@[i]));
            lemma_encode_push(full.take(written as int), name_char(input@[i]));
            assert(full.take(written + 1) =~= full.take(written as int).push(
                name_char(input@[i]),
            ));
        }
        buf.push(byte);
        written += 1;
        assert(buf@ =~= old(buf)@ + encode_utf8(full.take(written as int)));
    }
    assert(full.take(written as int) =~= sanitized_name(input@, budget as nat, lead));
    written
}

} // verus!
